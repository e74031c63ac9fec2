//! System-exclusive messages of 8-bit bytes, in word storage.
//!
//! A payload is cut into packets of four words, each holding a stream id
//! and up to thirteen payload bytes. The first word of a packet holds the
//! message type (5), the group, the status (complete, start, continue or
//! end), and the number of bytes that follow the status: the stream id and
//! the payload bytes of the packet. The stream id is octet 2 of the first
//! word; the payload bytes follow in octet 3 and the other three words.
use crate::bit_ops::{nibble32, octet32, BitOps};
use crate::buffer::{Buffer, UnitKind};
use crate::error::{BufferOverflow, Error, InvalidReason};
use crate::helpers::{
    chunk_count, chunk_nibble, groups_consistent, put_nibble, put_octet,
    status_error, sysex_group_consistent_groups, validate_sysex_group_statuses, StatusCodes,
};
use vstd::prelude::*;

verus! {

pub const UMP_MESSAGE_TYPE: u8 = 0x5;

pub const STATUS_COMPLETE: u8 = 0x0;

pub const STATUS_START: u8 = 0x1;

pub const STATUS_CONTINUE: u8 = 0x2;

pub const STATUS_END: u8 = 0x3;

/// Words in one packet.
pub const STRIDE: usize = 4;

/// Payload bytes that one packet can carry.
pub const PACKET_CAPACITY: usize = 13;

pub open spec fn sysex8_codes() -> StatusCodes {
    StatusCodes {
        complete: STATUS_COMPLETE,
        begin: STATUS_START,
        cont: STATUS_CONTINUE,
        end: STATUS_END,
    }
}

pub open spec fn packet_count(ws: Seq<u32>) -> nat {
    ws.len() / 4
}

pub open spec fn packet_type(ws: Seq<u32>, p: int) -> u8 {
    nibble32(ws[4 * p], 0)
}

pub open spec fn packet_group(ws: Seq<u32>, p: int) -> u8 {
    nibble32(ws[4 * p], 1)
}

pub open spec fn packet_status(ws: Seq<u32>, p: int) -> u8 {
    nibble32(ws[4 * p], 2)
}

/// The number of bytes after the status: the stream id and the payload.
pub open spec fn packet_size(ws: Seq<u32>, p: int) -> u8 {
    nibble32(ws[4 * p], 3)
}

pub open spec fn packet_stream(ws: Seq<u32>, p: int) -> u8 {
    octet32(ws[4 * p], 2)
}

pub open spec fn run_from(ws: Seq<u32>, p: nat) -> nat
    decreases packet_count(ws) - p,
{
    if p < packet_count(ws) && packet_type(ws, p as int) == UMP_MESSAGE_TYPE {
        1 + run_from(ws, p + 1)
    } else {
        0
    }
}

/// The packets of the message: the leading packets that carry the type.
pub open spec fn run_len(ws: Seq<u32>) -> nat {
    run_from(ws, 0)
}

pub open spec fn run_words(ws: Seq<u32>) -> Seq<u32> {
    ws.subrange(0, 4 * run_len(ws) as int)
}

/// Which word of a packet holds payload byte `k`, and at which octet.
pub open spec fn byte_word(k: int) -> int {
    (k + 3) / 4
}

pub open spec fn byte_octet(k: int) -> int {
    (k + 3) % 4
}

pub open spec fn payload_byte(ws: Seq<u32>, p: int, k: int) -> u8 {
    octet32(ws[4 * p + byte_word(k)], byte_octet(k))
}

pub open spec fn packet_payload(ws: Seq<u32>, p: int) -> Seq<u8> {
    Seq::new((packet_size(ws, p) - 1) as nat, |k: int| payload_byte(ws, p, k))
}

pub open spec fn payload_from(ws: Seq<u32>, p: nat, n: nat) -> Seq<u8>
    decreases n - p,
{
    if p < n {
        packet_payload(ws, p as int) + payload_from(ws, p + 1, n)
    } else {
        Seq::empty()
    }
}

pub open spec fn ump_payload(ws: Seq<u32>) -> Seq<u8> {
    payload_from(ws, 0, run_len(ws))
}

pub open spec fn streams_consistent(ws: Seq<u32>) -> bool {
    forall|p: int| 0 <= p < run_len(ws) ==> #[trigger] packet_stream(ws, p) == packet_stream(ws, 0)
}

/// A packet of the run declares no stream id, or more than a packet holds.
pub open spec fn bad_packet_size(ws: Seq<u32>) -> bool {
    exists|p: int|
        0 <= p < run_len(ws) && (#[trigger] packet_size(ws, p) == 0 || packet_size(ws, p)
            > PACKET_CAPACITY + 1)
}

/// The first check that word storage fails, if any: length, message type,
/// consistent groups, consistent stream ids, status grammar, packet sizes.
pub open spec fn ump_error(ws: Seq<u32>) -> Option<Error> {
    if ws.len() < 4 {
        Some(Error::BufferOverflow)
    } else if packet_type(ws, 0) != UMP_MESSAGE_TYPE {
        Some(Error::InvalidData(InvalidReason::IncorrectMessageType))
    } else if !groups_consistent(run_words(ws), 4) {
        Some(Error::InvalidData(InvalidReason::InconsistentGroups))
    } else if !streams_consistent(ws) {
        Some(Error::InvalidData(InvalidReason::InconsistentStreams))
    } else if status_error(run_words(ws), 4, sysex8_codes()) is Some {
        Some(Error::InvalidData(status_error(run_words(ws), 4, sysex8_codes())->Some_0))
    } else if bad_packet_size(ws) {
        Some(Error::InvalidData(InvalidReason::InvalidPacketSize))
    } else {
        None
    }
}

pub proof fn lemma_run_from(ws: Seq<u32>, p: nat)
    requires
        p <= packet_count(ws),
    ensures
        p + run_from(ws, p) <= packet_count(ws),
        forall|q: int| p <= q < p + run_from(ws, p) ==> packet_type(ws, q) == UMP_MESSAGE_TYPE,
        p + run_from(ws, p) < packet_count(ws) ==> packet_type(ws, (p + run_from(ws, p)) as int)
            != UMP_MESSAGE_TYPE,
    decreases packet_count(ws) - p,
{
    if p < packet_count(ws) && packet_type(ws, p as int) == UMP_MESSAGE_TYPE {
        lemma_run_from(ws, p + 1);
    }
}

/// A valid run: at least one packet, each declaring a stream id and at most
/// a packet's capacity.
pub proof fn lemma_valid_run(ws: Seq<u32>)
    requires
        ump_error(ws) is None,
    ensures
        1 <= run_len(ws),
        4 * run_len(ws) <= ws.len(),
        forall|q: int|
            0 <= q < run_len(ws) ==> 1 <= #[trigger] packet_size(ws, q) <= PACKET_CAPACITY + 1,
{
    lemma_run_from(ws, 0);
    assert(run_from(ws, 0) >= 1) by {
        assert(packet_type(ws, 0) == UMP_MESSAGE_TYPE);
    }
}

fn find_run(ws: &[u32]) -> (r: usize)
    ensures
        r == run_len(ws@),
        r <= packet_count(ws@),
{
    let len = ws.len();
    let n = len / 4;
    let mut p: usize = 0;
    proof {
        lemma_run_from(ws@, 0);
    }
    while p < n
        invariant
            len == ws@.len(),
            p <= n,
            n == packet_count(ws@),
            p + run_from(ws@, p as nat) == run_len(ws@),
        decreases n - p,
    {
        assert(4 * p + 3 < ws@.len());
        if ws[4 * p].nibble(0) != UMP_MESSAGE_TYPE {
            return p;
        }
        p = p + 1;
    }
    p
}

/// The checks of word storage, in the order in which they are made; the
/// number of packets of the message on success.
pub fn validate_ump(ws: &[u32]) -> (r: Result<usize, Error>)
    ensures
        match ump_error(ws@) {
            None => r == Ok::<usize, Error>(run_len(ws@) as usize),
            Some(e) => r == Err::<usize, Error>(e),
        },
{
    if ws.len() < 4 {
        return Err(Error::BufferOverflow);
    }
    if ws[0].nibble(0) != UMP_MESSAGE_TYPE {
        return Err(Error::InvalidData(InvalidReason::IncorrectMessageType));
    }
    let n = find_run(ws);
    proof {
        lemma_run_from(ws@, 0);
        assert(packet_type(ws@, 0) == UMP_MESSAGE_TYPE);
    }
    let run = ws.split_at(4 * n).0;
    assert(run@ == run_words(ws@));
    sysex_group_consistent_groups(run, 4)?;
    let len = ws.len();
    let stream = ws[0].octet(2);
    let mut p: usize = 0;
    while p < n
        invariant
            len == ws@.len(),
            groups_consistent(run_words(ws@), 4),
            ws@.len() >= 4,
            packet_type(ws@, 0) == UMP_MESSAGE_TYPE,
            stream == packet_stream(ws@, 0),
            p <= n,
            n == run_len(ws@),
            4 * n <= ws@.len(),
            forall|q: int| 0 <= q < p ==> #[trigger] packet_stream(ws@, q) == stream,
        decreases n - p,
    {
        assert(4 * p + 3 < ws@.len());
        if ws[4 * p].octet(2) != stream {
            assert(packet_stream(ws@, p as int) != packet_stream(ws@, 0));
            return Err(Error::InvalidData(InvalidReason::InconsistentStreams));
        }
        p = p + 1;
    }
    validate_sysex_group_statuses(
        run,
        &StatusCodes {
            complete: STATUS_COMPLETE,
            begin: STATUS_START,
            cont: STATUS_CONTINUE,
            end: STATUS_END,
        },
        4,
    )?;
    let mut p: usize = 0;
    while p < n
        invariant
            len == ws@.len(),
            groups_consistent(run_words(ws@), 4),
            streams_consistent(ws@),
            status_error(run_words(ws@), 4, sysex8_codes()) is None,
            ws@.len() >= 4,
            packet_type(ws@, 0) == UMP_MESSAGE_TYPE,
            p <= n,
            n == run_len(ws@),
            4 * n <= ws@.len(),
            forall|q: int|
                0 <= q < p ==> 1 <= #[trigger] packet_size(ws@, q) <= PACKET_CAPACITY + 1,
        decreases n - p,
    {
        assert(4 * p + 3 < ws@.len());
        let size = ws[4 * p].nibble(3) as usize;
        if size == 0 || size > PACKET_CAPACITY + 1 {
            assert(packet_size(ws@, p as int) == size);
            assert(0 <= p < run_len(ws@) && (packet_size(ws@, p as int) == 0 || packet_size(
                ws@,
                p as int,
            ) > PACKET_CAPACITY + 1));
            assert(bad_packet_size(ws@));
            assert(streams_consistent(ws@));
            return Err(Error::InvalidData(InvalidReason::InvalidPacketSize));
        }
        p = p + 1;
    }
    Ok(n)
}

/// A system-exclusive message of 8-bit bytes, over word storage that it
/// owns.
#[derive(Debug)]
pub struct Sysex8 {
    buffer: Buffer,
}

impl Sysex8 {
    pub closed spec fn storage(&self) -> Buffer {
        self.buffer
    }

    pub open spec fn wf(&self) -> bool {
        &&& self.storage().wf()
        &&& self.storage().kind() == UnitKind::Word
        &&& (self.storage().limit() is Some ==> self.storage().limit()->Some_0 >= 4)
        &&& ump_error(self.storage().words()) is None
        &&& 4 * self.storage().words().len() <= usize::MAX
    }

    pub open spec fn spec_payload(&self) -> Seq<u8> {
        ump_payload(self.storage().words())
    }

    pub open spec fn spec_group(&self) -> u8 {
        packet_group(self.storage().words(), 0)
    }

    pub open spec fn spec_stream_id(&self) -> u8 {
        packet_stream(self.storage().words(), 0)
    }

    /// Takes `buffer` as a message where it holds one; else the first check
    /// that fails. The bound on the length is met by every buffer that
    /// memory can hold, and keeps payload lengths in `usize`.
    pub fn try_from(buffer: Buffer) -> (r: Result<Sysex8, Error>)
        requires
            buffer.wf(),
            buffer.kind() == UnitKind::Word,
            4 * buffer.words().len() <= usize::MAX,
        ensures
            match ump_error(buffer.words()) {
                None => r is Ok,
                Some(e) => r == Err::<Sysex8, Error>(e),
            },
            r is Ok ==> r->Ok_0.wf() && r->Ok_0.storage() == buffer,
    {
        let checked = match buffer.specialise_u32() {
            Some(ws) => validate_ump(ws),
            None => Err(Error::BufferOverflow),
        };
        match checked {
            Ok(_) => Ok(Sysex8 { buffer }),
            Err(e) => Err(e),
        }
    }

    pub fn into_buffer(self) -> (r: Buffer)
        ensures
            r == self.storage(),
    {
        self.buffer
    }

    /// The words of the message's packets.
    pub fn data(&self) -> (r: &[u32])
        requires
            self.wf(),
        ensures
            r@ == run_words(self.storage().words()),
    {
        let ws = self.buffer.specialise_u32().unwrap();
        let n = find_run(ws);
        proof {
            lemma_valid_run(ws@);
        }
        ws.split_at(4 * n).0
    }

    pub fn group(&self) -> (r: u8)
        requires
            self.wf(),
        ensures
            r == self.spec_group(),
    {
        self.buffer.word(0).nibble(1)
    }

    pub fn stream_id(&self) -> (r: u8)
        requires
            self.wf(),
        ensures
            r == self.spec_stream_id(),
    {
        self.buffer.word(0).octet(2)
    }
}

pub proof fn lemma_payload_skip(ws: Seq<u32>, p: nat, n: nat, i: int)
    requires
        p < n,
        0 <= i <= packet_payload(ws, p as int).len(),
    ensures
        payload_from(ws, p, n).skip(i) == packet_payload(ws, p as int).skip(i) + payload_from(
            ws,
            p + 1,
            n,
        ),
{
    assert(payload_from(ws, p, n) == packet_payload(ws, p as int) + payload_from(ws, p + 1, n));
    assert(payload_from(ws, p, n).skip(i) =~= packet_payload(ws, p as int).skip(i) + payload_from(
        ws,
        p + 1,
        n,
    ));
}

/// The iterator returned by [`Sysex8::payload`].
#[derive(Debug)]
pub struct Sysex8PayloadIterator<'a> {
    data: &'a [u32],
    payload_index: usize,
    packet_index: usize,
}

impl<'a> Sysex8PayloadIterator<'a> {
    pub closed spec fn wf(&self) -> bool {
        let ws = self.data@;
        &&& ws.len() % 4 == 0
        &&& 4 * ws.len() <= usize::MAX
        &&& forall|p: int|
            0 <= p < packet_count(ws) ==> 1 <= #[trigger] packet_size(ws, p) <= PACKET_CAPACITY + 1
        &&& self.packet_index <= packet_count(ws)
        &&& self.packet_index < packet_count(ws) ==> self.payload_index < packet_size(
            ws,
            self.packet_index as int,
        ) - 1
        &&& self.packet_index == packet_count(ws) ==> self.payload_index == 0
    }

    /// The bytes that are still to come.
    pub closed spec fn remaining(&self) -> Seq<u8> {
        payload_from(self.data@, self.packet_index as nat, packet_count(self.data@)).skip(
            self.payload_index as int,
        )
    }

    fn new(data: &'a [u32]) -> (r: Self)
        requires
            data@.len() % 4 == 0,
            4 * data@.len() <= usize::MAX,
            forall|p: int|
                0 <= p < packet_count(data@) ==> 1 <= #[trigger] packet_size(data@, p)
                    <= PACKET_CAPACITY + 1,
        ensures
            r.wf(),
            r.remaining() == payload_from(data@, 0, packet_count(data@)),
    {
        let mut r = Sysex8PayloadIterator { data, payload_index: 0, packet_index: 0 };
        r.skip_empty();
        assert(payload_from(data@, 0, packet_count(data@)).skip(0) =~= payload_from(
            data@,
            0,
            packet_count(data@),
        ));
        r
    }

    /// Moves past packets that carry no payload.
    fn skip_empty(&mut self)
        requires
            old(self).payload_index == 0,
            old(self).packet_index <= packet_count(old(self).data@),
            old(self).data@.len() % 4 == 0,
            4 * old(self).data@.len() <= usize::MAX,
            forall|p: int|
                0 <= p < packet_count(old(self).data@) ==> 1 <= #[trigger] packet_size(
                    old(self).data@,
                    p,
                ) <= PACKET_CAPACITY + 1,
        ensures
            final(self).wf(),
            final(self).data == old(self).data,
            final(self).remaining() == old(self).remaining(),
            final(self).packet_index >= old(self).packet_index,
    {
        let ws = self.data;
        let len = ws.len();
        let n = len / 4;
        while self.packet_index < n && ws[4 * self.packet_index].nibble(3) == 1
            invariant
                len == ws@.len(),
                self.data == ws,
                self.payload_index == 0,
                old(self).packet_index <= self.packet_index <= n,
                n == packet_count(ws@),
                self.remaining() == old(self).remaining(),
            decreases n - self.packet_index,
        {
            proof {
                let p = self.packet_index as nat;
                assert(packet_size(ws@, p as int) == 1);
                lemma_payload_skip(ws@, p, n as nat, 0);
                assert(packet_payload(ws@, p as int).skip(0) =~= Seq::<u8>::empty());
                assert(payload_from(ws@, p + 1, n as nat).skip(0) =~= payload_from(
                    ws@,
                    p + 1,
                    n as nat,
                ));
            }
            self.packet_index = self.packet_index + 1;
        }
    }

    /// The next payload byte, if any.
    pub fn next(&mut self) -> (r: Option<u8>)
        requires
            old(self).wf(),
        ensures
            final(self).wf(),
            old(self).remaining().len() == 0 ==> r is None && final(self).remaining()
                == old(self).remaining(),
            old(self).remaining().len() > 0 ==> r == Some(old(self).remaining()[0])
                && final(self).remaining() == old(self).remaining().skip(1),
    {
        let ws = self.data;
        let n = ws.len() / 4;
        if self.packet_index == n {
            assert(self.remaining() =~= Seq::<u8>::empty());
            return None;
        }
        let p = self.packet_index;
        let i = self.payload_index;
        let size = ws[4 * p].nibble(3) as usize - 1;
        let v = ws[4 * p + (i + 3) / 4].octet((i + 3) % 4);
        proof {
            lemma_payload_skip(ws@, p as nat, n as nat, i as int);
            assert(v == payload_byte(ws@, p as int, i as int));
            assert(old(self).remaining()[0] == v);
        }
        if i + 1 == size {
            proof {
                lemma_payload_skip(ws@, p as nat, n as nat, size as int);
                assert(packet_payload(ws@, p as int).skip(size as int) =~= Seq::<u8>::empty());
                assert(payload_from(ws@, p as nat + 1, n as nat).skip(0) =~= payload_from(
                    ws@,
                    p as nat + 1,
                    n as nat,
                ));
                assert(old(self).remaining().skip(1) =~= payload_from(ws@, p as nat + 1, n as nat));
            }
            self.packet_index = p + 1;
            self.payload_index = 0;
            self.skip_empty();
        } else {
            self.payload_index = i + 1;
            proof {
                lemma_payload_skip(ws@, p as nat, n as nat, i as int + 1);
                assert(old(self).remaining().skip(1) =~= self.remaining());
            }
        }
        Some(v)
    }

    /// The byte `n` places ahead (`nth(0)` is `next`), passing whole packets
    /// without reading them; past the end, `None`, and the iterator is done.
    pub fn nth(&mut self, n: usize) -> (r: Option<u8>)
        requires
            old(self).wf(),
        ensures
            final(self).wf(),
            n < old(self).remaining().len() ==> r == Some(old(self).remaining()[n as int])
                && final(self).remaining() == old(self).remaining().skip(n + 1),
            n >= old(self).remaining().len() ==> r is None && final(self).remaining().len() == 0,
    {
        let ws = self.data;
        let len = ws.len();
        let count = len / 4;
        let mut k: usize = n;
        while self.packet_index < count
            invariant
                len == ws@.len(),
                self.data == ws,
                self.wf(),
                count == packet_count(ws@),
                k <= n,
                n - k <= old(self).remaining().len(),
                self.remaining() == old(self).remaining().skip(n - k),
            decreases count - self.packet_index,
        {
            let p = self.packet_index;
            let i = self.payload_index;
            let size = ws[4 * p].nibble(3) as usize - 1;
            let left = size - i;
            proof {
                lemma_payload_skip(ws@, p as nat, count as nat, i as int);
            }
            if k < left {
                self.payload_index = i + k;
                proof {
                    let o = old(self).remaining();
                    let pp = packet_payload(ws@, p as int);
                    let rest = payload_from(ws@, p as nat + 1, count as nat);
                    lemma_payload_skip(ws@, p as nat, count as nat, (i + k) as int);
                    assert(o.skip(n - k) == pp.skip(i as int) + rest);
                    assert(o.skip(n as int) =~= o.skip(n - k).skip(k as int));
                    assert((pp.skip(i as int) + rest).skip(k as int) =~= pp.skip((i + k) as int)
                        + rest);
                    assert(self.remaining() =~= old(self).remaining().skip(n as int));
                }
                let ghost mid = self.remaining();
                let r = self.next();
                proof {
                    let o = old(self).remaining();
                    assert(mid.len() > 0);
                    assert(o.skip(n + 1) =~= mid.skip(1));
                }
                return r;
            }
            proof {
                let o = old(self).remaining();
                let pp = packet_payload(ws@, p as int);
                let rest = payload_from(ws@, p as nat + 1, count as nat);
                assert(o.skip(n - k) == pp.skip(i as int) + rest);
                assert(o.skip(n - k + left) =~= o.skip(n - k).skip(left as int));
                assert((pp.skip(i as int) + rest).skip(left as int) =~= rest);
                assert(rest.skip(0) =~= rest);
            }
            k = k - left;
            self.packet_index = p + 1;
            self.payload_index = 0;
            self.skip_empty();
        }
        assert(self.remaining() =~= Seq::<u8>::empty());
        None
    }

    /// The number of bytes still to come.
    pub fn len(&self) -> (r: usize)
        requires
            self.wf(),
        ensures
            r == self.remaining().len(),
    {
        let ws = self.data;
        let len = ws.len();
        let count = len / 4;
        let mut total: usize = 0;
        let mut p: usize = self.packet_index;
        while p < count
            invariant
                len == ws@.len(),
                self.wf(),
                self.data == ws,
                count == packet_count(ws@),
                self.packet_index <= p <= count,
                total + payload_from(ws@, p as nat, count as nat).len() == payload_from(
                    ws@,
                    self.packet_index as nat,
                    count as nat,
                ).len(),
                total <= PACKET_CAPACITY * (p - self.packet_index),
            decreases count - p,
        {
            assert(payload_from(ws@, p as nat, count as nat) == packet_payload(ws@, p as int)
                + payload_from(ws@, p as nat + 1, count as nat));
            total = total + (ws[4 * p].nibble(3) as usize - 1);
            p = p + 1;
        }
        total - self.payload_index
    }
}

/// The payload of the first `n` packets depends on those packets alone.
pub proof fn lemma_payload_prefix(ws: Seq<u32>, run: Seq<u32>, p: nat, n: nat)
    requires
        p <= n,
        4 * n <= ws.len(),
        run == ws.subrange(0, 4 * n as int),
        forall|q: int| 0 <= q < n ==> 1 <= #[trigger] packet_size(ws, q) <= PACKET_CAPACITY + 1,
    ensures
        payload_from(run, p, n) == payload_from(ws, p, n),
    decreases n - p,
{
    if p < n {
        lemma_payload_prefix(ws, run, p + 1, n);
        assert(packet_size(run, p as int) == packet_size(ws, p as int));
        assert forall|k: int| 0 <= k < packet_size(ws, p as int) - 1 implies payload_byte(
            run,
            p as int,
            k,
        ) == payload_byte(ws, p as int, k) by {
            assert(byte_word(k) <= 3);
        }
        assert(packet_payload(run, p as int) =~= packet_payload(ws, p as int));
    }
}

impl Sysex8 {
    /// The payload bytes, read lazily.
    pub fn payload(&self) -> (r: Sysex8PayloadIterator<'_>)
        requires
            self.wf(),
        ensures
            r.wf(),
            r.remaining() == self.spec_payload(),
    {
        let ws = self.buffer.specialise_u32().unwrap();
        let n = find_run(ws);
        let run = ws.split_at(4 * n).0;
        proof {
            lemma_valid_run(ws@);
            assert(run@ == run_words(ws@));
            assert forall|p: int| 0 <= p < packet_count(run@) implies 1 <= #[trigger] packet_size(
                run@,
                p,
            ) <= PACKET_CAPACITY + 1 by {
                assert(packet_size(run@, p) == packet_size(ws@, p));
            }
            lemma_payload_prefix(ws@, run@, 0, n as nat);
        }
        Sysex8PayloadIterator::new(run)
    }

    /// The number of payload bytes.
    pub fn payload_size(&self) -> (r: usize)
        requires
            self.wf(),
        ensures
            r == self.spec_payload().len(),
    {
        self.payload().len()
    }
}

/// The status of packet `p` of `n`.
pub open spec fn expected_status(p: int, n: int) -> u8 {
    if n == 1 {
        STATUS_COMPLETE
    } else if p == 0 {
        STATUS_START
    } else if p < n - 1 {
        STATUS_CONTINUE
    } else {
        STATUS_END
    }
}

/// The payload bytes in packet `p` of `n` that carry `len` bytes.
pub open spec fn expected_count(p: int, n: int, len: int) -> int {
    if p < n - 1 {
        PACKET_CAPACITY as int
    } else {
        len - PACKET_CAPACITY * (n - 1)
    }
}

/// The number of packets that `len` payload bytes take.
pub open spec fn packets_for(len: nat) -> nat {
    if len == 0 {
        1
    } else {
        ((len + 12) / 13) as nat
    }
}

/// The words hold `n` packets that carry `len` bytes in payload order, with
/// `group` and `stream`.
pub open spec fn laid_out(ws: Seq<u32>, n: nat, len: nat, group: u8, stream: u8) -> bool {
    &&& n >= 1
    &&& packet_count(ws) == n
    &&& 13 * (n - 1) <= len <= 13 * n
    &&& (n > 1 ==> len > 13 * (n - 1))
    &&& forall|p: int| 0 <= p < n ==> #[trigger] packet_type(ws, p) == UMP_MESSAGE_TYPE
    &&& forall|p: int| 0 <= p < n ==> #[trigger] packet_group(ws, p) == group
    &&& forall|p: int| 0 <= p < n ==> #[trigger] packet_stream(ws, p) == stream
    &&& forall|p: int| 0 <= p < n ==> #[trigger] packet_status(ws, p) == expected_status(p, n as int)
    &&& forall|p: int|
        0 <= p < n ==> #[trigger] packet_size(ws, p) == expected_count(p, n as int, len as int) + 1
}

/// The bytes past the payload in the last packet are zero.
pub open spec fn tail_clear(ws: Seq<u32>, n: nat, len: nat) -> bool {
    forall|k: int|
        len - 13 * (n - 1) <= k < 13 ==> #[trigger] octet32(
            ws[4 * (n - 1) + byte_word(k)],
            byte_octet(k),
        ) == 0
}

pub open spec fn laid_byte(ws: Seq<u32>, i: int) -> u8 {
    payload_byte(ws, i / 13, i % 13)
}

pub proof fn lemma_run_all(ws: Seq<u32>, p: nat)
    requires
        p <= packet_count(ws),
        forall|q: int| p <= q < packet_count(ws) ==> #[trigger] packet_type(ws, q) == UMP_MESSAGE_TYPE,
    ensures
        run_from(ws, p) == packet_count(ws) - p,
    decreases packet_count(ws) - p,
{
    if p < packet_count(ws) {
        lemma_run_all(ws, p + 1);
    }
}

pub proof fn lemma_laid_payload_from(ws: Seq<u32>, n: nat, len: nat, g: u8, st: u8, p: nat)
    requires
        laid_out(ws, n, len, g, st),
        p < n,
    ensures
        payload_from(ws, p, n) =~= Seq::new(
            (len - 13 * p) as nat,
            |i: int| payload_byte(ws, p + i / 13, i % 13),
        ),
    decreases n - p,
{
    assert(packet_size(ws, p as int) == expected_count(p as int, n as int, len as int) + 1);
    if p + 1 < n {
        lemma_laid_payload_from(ws, n, len, g, st, p + 1);
        let a = packet_payload(ws, p as int);
        let b = payload_from(ws, p + 1, n);
        assert forall|i: int| 0 <= i < len - 13 * p implies #[trigger] (a + b)[i] == payload_byte(
            ws,
            p + i / 13,
            i % 13,
        ) by {
            if i >= 13 {
                assert((i - 13) / 13 + 1 == i / 13 && (i - 13) % 13 == i % 13);
            }
        }
    } else {
        assert(payload_from(ws, p + 1, n) =~= Seq::<u8>::empty());
    }
}

/// A laid-out run is a valid message whose payload is read in place.
pub proof fn lemma_laid_out_valid(ws: Seq<u32>, n: nat, len: nat, g: u8, st: u8)
    requires
        laid_out(ws, n, len, g, st),
    ensures
        ump_error(ws) is None,
        run_len(ws) == n,
        ump_payload(ws) =~= Seq::new(len, |i: int| laid_byte(ws, i)),
{
    lemma_run_all(ws, 0);
    let rw = run_words(ws);
    assert(rw.len() == 4 * n);
    assert(chunk_count(rw, 4) == n);
    assert forall|c: int| 0 <= c < n implies #[trigger] chunk_nibble(rw, 4, c, 1) == packet_group(
        ws,
        c,
    ) by {
        assert(c * 4 == 4 * c);
    }
    assert forall|c: int| 0 <= c < n implies #[trigger] chunk_nibble(rw, 4, c, 2) == packet_status(
        ws,
        c,
    ) by {
        assert(c * 4 == 4 * c);
    }
    assert(packet_group(ws, 0) == g);
    assert(groups_consistent(rw, 4));
    assert(chunk_nibble(rw, 4, 0, 2) == packet_status(ws, 0));
    if n > 1 {
        assert forall|c: int| 1 <= c < n - 1 implies #[trigger] chunk_nibble(rw, 4, c, 2)
            == STATUS_CONTINUE by {
            assert(packet_status(ws, c) == expected_status(c, n as int));
        }
        assert(chunk_nibble(rw, 4, n - 1, 2) == packet_status(ws, n - 1));
    }
    assert(status_error(rw, 4, sysex8_codes()) is None);
    assert(packet_stream(ws, 0) == st);
    assert(streams_consistent(ws));
    assert(!bad_packet_size(ws));
    lemma_laid_payload_from(ws, n, len, g, st, 0);
    assert(ump_payload(ws) =~= Seq::new(len, |i: int| laid_byte(ws, i)));
}

/// Distinct payload positions of a laid-out run sit at distinct places.
pub proof fn lemma_byte_position(i: int, j: int)
    requires
        0 <= i,
        0 <= j,
        i != j,
    ensures
        4 * (i / 13) + byte_word(i % 13) != 4 * (j / 13) + byte_word(j % 13) || byte_octet(i % 13)
            != byte_octet(j % 13),
{
    let a = i / 13;
    let r = i % 13;
    let b = j / 13;
    let s = j % 13;
    assert(i == 13 * a + r && 0 <= r < 13);
    assert(j == 13 * b + s && 0 <= s < 13);
    if 4 * a + byte_word(r) == 4 * b + byte_word(s) && byte_octet(r) == byte_octet(s) {
        assert(0 <= byte_word(r) <= 3 && 0 <= byte_word(s) <= 3);
        assert(a == b);
        assert(r == s);
    }
}

/// The header of a packet: type, group, status, size and stream id; the
/// first payload byte kept.
fn with_header(w: u32, g: u8, status: u8, size: u8, stream: u8) -> (r: u32)
    requires
        g < 16,
        status < 16,
        size < 16,
    ensures
        nibble32(r, 0) == UMP_MESSAGE_TYPE,
        nibble32(r, 1) == g,
        nibble32(r, 2) == status,
        nibble32(r, 3) == size,
        octet32(r, 2) == stream,
        octet32(r, 3) == octet32(w, 3),
{
    let a = put_nibble(w, 0, UMP_MESSAGE_TYPE);
    let b = put_nibble(a, 1, g);
    let c = put_nibble(b, 2, status);
    let d = put_nibble(c, 3, size);
    let e = put_octet(d, 2, stream);
    assert(nibble32(e, 0) == nibble32(d, 0) && nibble32(d, 0) == nibble32(c, 0) && nibble32(c, 0)
        == nibble32(b, 0));
    assert(nibble32(e, 1) == nibble32(d, 1) && nibble32(d, 1) == nibble32(c, 1));
    assert(nibble32(e, 2) == nibble32(d, 2));
    assert(octet32(e, 3) == octet32(d, 3) && octet32(d, 3) == octet32(c, 3) && octet32(c, 3)
        == octet32(b, 3) && octet32(b, 3) == octet32(a, 3) && octet32(a, 3) == octet32(w, 3));
    e
}

/// Writes the headers of every whole packet for a payload of
/// `payload_size` bytes, cut to what the packets hold, and clears the bytes
/// past the payload in the last packet. Returns the payload length laid
/// out.
fn lay_out(buffer: &mut Buffer, payload_size: usize, group: u8, stream: u8) -> (len: usize)
    requires
        old(buffer).kind() == UnitKind::Word,
        old(buffer).words().len() >= 4,
        4 * old(buffer).words().len() <= usize::MAX,
        packet_count(old(buffer).words()) == 1 || payload_size > 13 * (packet_count(
            old(buffer).words(),
        ) - 1),
        group < 16,
    ensures
        final(buffer).kind() == UnitKind::Word,
        final(buffer).limit() == old(buffer).limit(),
        final(buffer).words().len() == old(buffer).words().len(),
        old(buffer).wf() ==> final(buffer).wf(),
        len as nat == if payload_size <= 13 * packet_count(old(buffer).words()) {
            payload_size as nat
        } else {
            13 * packet_count(old(buffer).words())
        },
        laid_out(
            final(buffer).words(),
            packet_count(old(buffer).words()),
            len as nat,
            group,
            stream,
        ),
        tail_clear(final(buffer).words(), packet_count(old(buffer).words()), len as nat),
{
    let count = buffer.len() / 4;
    let len: usize = if payload_size <= 13 * count {
        payload_size
    } else {
        13 * count
    };
    let mut p: usize = 0;
    while p < count
        invariant
            buffer.kind() == UnitKind::Word,
            buffer.limit() == old(buffer).limit(),
            buffer.words().len() == old(buffer).words().len(),
            old(buffer).wf() ==> buffer.wf(),
            count == packet_count(buffer.words()),
            count >= 1,
            13 * (count - 1) <= len <= 13 * count,
            count > 1 ==> len > 13 * (count - 1),
            group < 16,
            p <= count,
            forall|q: int| 0 <= q < p ==> #[trigger] packet_type(buffer.words(), q) == UMP_MESSAGE_TYPE,
            forall|q: int| 0 <= q < p ==> #[trigger] packet_group(buffer.words(), q) == group,
            forall|q: int| 0 <= q < p ==> #[trigger] packet_stream(buffer.words(), q) == stream,
            forall|q: int|
                0 <= q < p ==> #[trigger] packet_status(buffer.words(), q) == expected_status(
                    q,
                    count as int,
                ),
            forall|q: int|
                0 <= q < p ==> #[trigger] packet_size(buffer.words(), q) == expected_count(
                    q,
                    count as int,
                    len as int,
                ) + 1,
        decreases count - p,
    {
        let status: u8 = if count == 1 {
            STATUS_COMPLETE
        } else if p == 0 {
            STATUS_START
        } else if p < count - 1 {
            STATUS_CONTINUE
        } else {
            STATUS_END
        };
        let size: u8 = if p < count - 1 {
            14
        } else {
            (len - 13 * (count - 1) + 1) as u8
        };
        let w = with_header(buffer.word(4 * p), group, status, size, stream);
        let ghost before = buffer.words();
        buffer.set_word(4 * p, w);
        proof {
            let ws = buffer.words();
            assert forall|q: int| 0 <= q < p implies #[trigger] packet_type(ws, q) == packet_type(
                before,
                q,
            ) by {
                assert(ws[4 * q] == before[4 * q]);
            }
            assert forall|q: int| 0 <= q < p implies #[trigger] packet_group(ws, q) == packet_group(
                before,
                q,
            ) by {
                assert(ws[4 * q] == before[4 * q]);
            }
            assert forall|q: int| 0 <= q < p implies #[trigger] packet_stream(ws, q)
                == packet_stream(before, q) by {
                assert(ws[4 * q] == before[4 * q]);
            }
            assert forall|q: int| 0 <= q < p implies #[trigger] packet_status(ws, q)
                == packet_status(before, q) by {
                assert(ws[4 * q] == before[4 * q]);
            }
            assert forall|q: int| 0 <= q < p implies #[trigger] packet_size(ws, q) == packet_size(
                before,
                q,
            ) by {
                assert(ws[4 * q] == before[4 * q]);
            }
            assert(ws[4 * p as int] == w);
            assert(packet_type(ws, p as int) == UMP_MESSAGE_TYPE);
            assert(packet_group(ws, p as int) == group);
            assert(packet_stream(ws, p as int) == stream);
            assert(packet_status(ws, p as int) == expected_status(p as int, count as int));
            assert(packet_size(ws, p as int) == expected_count(p as int, count as int, len as int)
                + 1);
        }
        p = p + 1;
    }
    let last = count - 1;
    let mut k: usize = len - 13 * last;
    while k < 13
        invariant
            buffer.kind() == UnitKind::Word,
            buffer.limit() == old(buffer).limit(),
            buffer.words().len() == old(buffer).words().len(),
            old(buffer).wf() ==> buffer.wf(),
            count == packet_count(buffer.words()),
            last == count - 1,
            laid_out(buffer.words(), count as nat, len as nat, group, stream),
            len - 13 * last <= k <= 13,
            forall|j: int|
                len - 13 * last <= j < k ==> #[trigger] octet32(
                    buffer.words()[4 * last + byte_word(j)],
                    byte_octet(j),
                ) == 0,
        decreases 13 - k,
    {
        let idx = 4 * last + (k + 3) / 4;
        let o = (k + 3) % 4;
        let ghost before = buffer.words();
        let w = put_octet(buffer.word(idx), o, 0);
        buffer.set_word(idx, w);
        proof {
            let ws = buffer.words();
            assert forall|q: int| 0 <= q < count implies #[trigger] nibble32(ws[4 * q], 0) == nibble32(
                before[4 * q],
                0,
            ) && nibble32(ws[4 * q], 1) == nibble32(before[4 * q], 1) && nibble32(ws[4 * q], 2)
                == nibble32(before[4 * q], 2) && nibble32(ws[4 * q], 3) == nibble32(
                before[4 * q],
                3,
            ) && octet32(ws[4 * q], 2) == octet32(before[4 * q], 2) by {
                if 4 * q == idx {
                    assert(o == 3);
                }
            }
            assert(forall|q: int| 0 <= q < count ==> #[trigger] packet_type(ws, q) == packet_type(before, q));
            assert(forall|q: int| 0 <= q < count ==> #[trigger] packet_group(ws, q) == packet_group(before, q));
            assert(forall|q: int| 0 <= q < count ==> #[trigger] packet_stream(ws, q) == packet_stream(before, q));
            assert(forall|q: int| 0 <= q < count ==> #[trigger] packet_status(ws, q) == packet_status(before, q));
            assert(forall|q: int| 0 <= q < count ==> #[trigger] packet_size(ws, q) == packet_size(before, q));
            assert forall|j: int| len - 13 * last <= j < k + 1 implies #[trigger] octet32(
                ws[4 * last + byte_word(j)],
                byte_octet(j),
            ) == 0 by {
                if j != k {
                    lemma_byte_position(13 * last + j, 13 * last + k);
                    assert((13 * last + j) / 13 == last && (13 * last + j) % 13 == j);
                    assert((13 * last + k) / 13 == last && (13 * last + k) % 13 == k);
                }
            }
        }
        k = k + 1;
    }
    len
}

/// Writes payload byte `index` of a laid-out run in place.
fn put_laid_byte(
    buffer: &mut Buffer,
    index: usize,
    datum: u8,
    Ghost(n): Ghost<nat>,
    Ghost(len): Ghost<nat>,
    Ghost(g): Ghost<u8>,
    Ghost(st): Ghost<u8>,
)
    requires
        old(buffer).kind() == UnitKind::Word,
        laid_out(old(buffer).words(), n, len, g, st),
        tail_clear(old(buffer).words(), n, len),
        index < len,
    ensures
        final(buffer).kind() == UnitKind::Word,
        final(buffer).limit() == old(buffer).limit(),
        final(buffer).words().len() == old(buffer).words().len(),
        old(buffer).wf() ==> final(buffer).wf(),
        laid_out(final(buffer).words(), n, len, g, st),
        tail_clear(final(buffer).words(), n, len),
        Seq::new(len, |i: int| laid_byte(final(buffer).words(), i)) == Seq::new(
            len,
            |i: int| laid_byte(old(buffer).words(), i),
        ).update(index as int, datum),
{
    let r = index % 13;
    let j = 4 * (index / 13) + (r + 3) / 4;
    let o = (r + 3) % 4;
    let ghost before = buffer.words();
    proof {
        assert(index / 13 < n);
        assert(j < 4 * n);
    }
    let w = put_octet(buffer.word(j), o, datum);
    buffer.set_word(j, w);
    proof {
        let ws = buffer.words();
        assert forall|q: int| 0 <= q < n implies #[trigger] nibble32(ws[4 * q], 0) == nibble32(
            before[4 * q],
            0,
        ) && nibble32(ws[4 * q], 1) == nibble32(before[4 * q], 1) && nibble32(ws[4 * q], 2)
            == nibble32(before[4 * q], 2) && nibble32(ws[4 * q], 3) == nibble32(before[4 * q], 3)
            && octet32(ws[4 * q], 2) == octet32(before[4 * q], 2) by {
            if 4 * q == j {
                assert(o == 3);
            }
        }
        assert(forall|q: int| 0 <= q < n ==> #[trigger] packet_type(ws, q) == packet_type(before, q));
        assert(forall|q: int| 0 <= q < n ==> #[trigger] packet_group(ws, q) == packet_group(before, q));
        assert(forall|q: int| 0 <= q < n ==> #[trigger] packet_stream(ws, q) == packet_stream(before, q));
        assert(forall|q: int| 0 <= q < n ==> #[trigger] packet_status(ws, q) == packet_status(before, q));
        assert(forall|q: int| 0 <= q < n ==> #[trigger] packet_size(ws, q) == packet_size(before, q));
        assert forall|i: int| 0 <= i < len implies #[trigger] laid_byte(ws, i) == if i == index {
            datum
        } else {
            laid_byte(before, i)
        } by {
            if i != index {
                lemma_byte_position(i, index as int);
            }
        }
        assert(Seq::new(len, |i: int| laid_byte(ws, i)) =~= Seq::new(
            len,
            |i: int| laid_byte(before, i),
        ).update(index as int, datum));
        assert forall|k: int| len - 13 * (n - 1) <= k < 13 implies #[trigger] octet32(
            ws[4 * (n - 1) + byte_word(k)],
            byte_octet(k),
        ) == 0 by {
            lemma_byte_position(13 * (n - 1) + k, index as int);
            assert((13 * (n - 1) + k) / 13 == n - 1 && (13 * (n - 1) + k) % 13 == k);
        }
    }
}

/// The words that a payload of `len` bytes takes.
pub open spec fn units_for(len: nat) -> nat {
    4 * packets_for(len)
}

/// The payload bytes that `cap` words hold.
pub open spec fn room(cap: nat) -> nat {
    13 * (cap / 4)
}

impl Sysex8 {
    /// Packets are full but for the last, in payload order, with cleared
    /// bytes past the payload.
    pub open spec fn canonical(&self) -> bool {
        let ws = self.storage().words();
        &&& laid_out(
            ws,
            packet_count(ws),
            self.spec_payload().len(),
            self.spec_group(),
            self.spec_stream_id(),
        )
        &&& tail_clear(ws, packet_count(ws), self.spec_payload().len())
    }

    /// An empty message of `group` and stream `stream_id` in growable
    /// storage: one complete packet that carries the stream id alone.
    pub fn new(group: u8, stream_id: u8) -> (r: Sysex8)
        requires
            group < 16,
        ensures
            r.wf(),
            r.canonical(),
            r.storage().limit() is None,
            r.spec_payload().len() == 0,
            r.spec_group() == group,
            r.spec_stream_id() == stream_id,
    {
        let mut buffer = Buffer::from_words(vec![0u32, 0u32, 0u32, 0u32]);
        lay_out(&mut buffer, 0, group, stream_id);
        proof {
            lemma_laid_out_valid(buffer.words(), 1, 0, group, stream_id);
        }
        Sysex8 { buffer }
    }

    /// Writes an empty message of `group` and stream `stream_id` into word
    /// storage, which must have room for one packet.
    pub fn try_new(buffer: Buffer, group: u8, stream_id: u8) -> (r: Result<Sysex8, BufferOverflow>)
        requires
            buffer.wf(),
            buffer.kind() == UnitKind::Word,
            group < 16,
        ensures
            r is Ok <==> buffer.granted(4) == 4,
            r is Ok ==> {
                let m = r->Ok_0;
                &&& m.wf()
                &&& m.canonical()
                &&& m.storage().limit() == buffer.limit()
                &&& m.spec_payload().len() == 0
                &&& m.spec_group() == group
                &&& m.spec_stream_id() == stream_id
            },
    {
        let mut buffer = buffer;
        if buffer.try_resize(4).is_err() {
            return Err(BufferOverflow);
        }
        lay_out(&mut buffer, 0, group, stream_id);
        proof {
            lemma_laid_out_valid(buffer.words(), 1, 0, group, stream_id);
        }
        Ok(Sysex8 { buffer })
    }

    /// Resizes the storage to hold `payload_size` payload bytes where it
    /// allows it, else as many as it can hold, and lays the payload out
    /// afresh with the group and stream id of the first packet.
    pub fn try_resize(&mut self, payload_size: usize) -> (r: Result<(), BufferOverflow>)
        requires
            old(self).wf(),
            2 * payload_size + 64 <= usize::MAX,
        ensures
            final(self).wf(),
            final(self).canonical(),
            final(self).storage().limit() == old(self).storage().limit(),
            final(self).spec_group() == old(self).spec_group(),
            final(self).spec_stream_id() == old(self).spec_stream_id(),
            r is Ok <==> old(self).storage().granted(units_for(payload_size as nat)) == units_for(
                payload_size as nat,
            ),
            r is Ok ==> final(self).spec_payload().len() == payload_size,
            r is Err ==> final(self).spec_payload().len() == room(
                old(self).storage().limit()->Some_0 as nat,
            ) && final(self).spec_payload().len() < payload_size,
    {
        let group = self.group();
        let stream = self.stream_id();
        proof {
            lemma_field_bound(self.storage().words()[0]);
        }
        let units: usize = if payload_size == 0 {
            4
        } else {
            4 * ((payload_size + 12) / 13)
        };
        proof {
            let q = (payload_size + 12) / 13;
            assert(16 * q <= 2 * payload_size + 24) by (nonlinear_arith)
                requires
                    q == (payload_size + 12) / 13,
            ;
        }
        let r = self.buffer.try_resize(units);
        proof {
            let len = self.buffer.words().len();
            let count = len / 4;
            assert(len >= 4);
            assert(4 * len <= usize::MAX);
            if r is Ok {
                assert(count == packets_for(payload_size as nat));
            } else {
                assert(payload_size > 13 * count);
            }
        }
        let len = lay_out(&mut self.buffer, payload_size, group, stream);
        proof {
            lemma_laid_out_valid(
                self.buffer.words(),
                packet_count(self.buffer.words()),
                len as nat,
                group,
                stream,
            );
        }
        r
    }

    /// Resizes growable storage to hold `payload_size` payload bytes.
    pub fn resize(&mut self, payload_size: usize)
        requires
            old(self).wf(),
            old(self).storage().limit() is None,
            2 * payload_size + 64 <= usize::MAX,
        ensures
            final(self).wf(),
            final(self).canonical(),
            final(self).storage().limit() is None,
            final(self).spec_group() == old(self).spec_group(),
            final(self).spec_stream_id() == old(self).spec_stream_id(),
            final(self).spec_payload().len() == payload_size,
    {
        let _ = self.try_resize(payload_size);
    }

    fn write_datum(&mut self, datum: u8, index: usize)
        requires
            old(self).wf(),
            old(self).canonical(),
            index < old(self).spec_payload().len(),
        ensures
            final(self).wf(),
            final(self).canonical(),
            final(self).storage().limit() == old(self).storage().limit(),
            final(self).spec_group() == old(self).spec_group(),
            final(self).spec_stream_id() == old(self).spec_stream_id(),
            final(self).spec_payload() == old(self).spec_payload().update(index as int, datum),
    {
        let ghost ws = self.buffer.words();
        let ghost n = packet_count(ws);
        let ghost len = self.spec_payload().len();
        let ghost g = self.spec_group();
        let ghost st = self.spec_stream_id();
        proof {
            lemma_laid_out_valid(ws, n, len, g, st);
        }
        put_laid_byte(&mut self.buffer, index, datum, Ghost(n), Ghost(len), Ghost(g), Ghost(st));
        proof {
            lemma_laid_out_valid(self.buffer.words(), n, len, g, st);
        }
    }

    fn write_all(&mut self, data: &[u8], n: usize)
        requires
            old(self).wf(),
            old(self).canonical(),
            old(self).spec_payload().len() == n,
            n <= data@.len(),
        ensures
            final(self).wf(),
            final(self).canonical(),
            final(self).storage().limit() == old(self).storage().limit(),
            final(self).spec_group() == old(self).spec_group(),
            final(self).spec_stream_id() == old(self).spec_stream_id(),
            final(self).spec_payload() == data@.take(n as int),
    {
        let mut i: usize = 0;
        while i < n
            invariant
                self.wf(),
                self.canonical(),
                self.storage().limit() == old(self).storage().limit(),
                self.spec_group() == old(self).spec_group(),
                self.spec_stream_id() == old(self).spec_stream_id(),
                self.spec_payload().len() == n,
                n <= data@.len(),
                i <= n,
                forall|k: int| 0 <= k < i ==> self.spec_payload()[k] == data@[k],
            decreases n - i,
        {
            self.write_datum(data[i], i);
            i = i + 1;
        }
        assert(self.spec_payload() =~= data@.take(n as int));
    }

    /// Replaces the payload with `data`, growing or shrinking the storage.
    pub fn set_payload(&mut self, data: &[u8])
        requires
            old(self).wf(),
            old(self).storage().limit() is None,
            2 * data@.len() + 64 <= usize::MAX,
        ensures
            final(self).wf(),
            final(self).canonical(),
            final(self).storage().limit() is None,
            final(self).spec_group() == old(self).spec_group(),
            final(self).spec_stream_id() == old(self).spec_stream_id(),
            final(self).spec_payload() == data@,
    {
        self.resize(data.len());
        self.write_all(data, data.len());
        assert(data@.take(data@.len() as int) =~= data@);
    }

    /// Replaces the payload with `data` where the storage can hold it; else
    /// with as much of `data` as it holds, and reports the overflow.
    pub fn try_set_payload(&mut self, data: &[u8]) -> (r: Result<(), BufferOverflow>)
        requires
            old(self).wf(),
            2 * data@.len() + 64 <= usize::MAX,
        ensures
            final(self).wf(),
            final(self).canonical(),
            final(self).storage().limit() == old(self).storage().limit(),
            final(self).spec_group() == old(self).spec_group(),
            final(self).spec_stream_id() == old(self).spec_stream_id(),
            r is Ok <==> old(self).storage().granted(units_for(data@.len())) == units_for(
                data@.len(),
            ),
            r is Ok ==> final(self).spec_payload() == data@,
            r is Err ==> final(self).spec_payload() == data@.take(
                room(old(self).storage().limit()->Some_0 as nat) as int,
            ),
    {
        let r = self.try_resize(data.len());
        let n = self.payload_size();
        self.write_all(data, n);
        assert(r is Ok ==> data@.take(data@.len() as int) =~= data@);
        r
    }
}

/// Nibbles of a word are below 16.
proof fn lemma_field_bound(w: u32)
    ensures
        nibble32(w, 1) < 16,
{
    crate::bit_ops::lemma_field32(w, 0, 1, 0, 24, 4);
    crate::bit_ops::lemma_masks(0, 0);
}

/// Two runs whose packets carry the same types have equally long runs.
pub proof fn lemma_same_run(a: Seq<u32>, b: Seq<u32>, p: nat)
    requires
        a.len() == b.len(),
        forall|q: int| 0 <= q < packet_count(a) ==> #[trigger] packet_type(a, q) == packet_type(b, q),
    ensures
        run_from(a, p) == run_from(b, p),
    decreases packet_count(a) - p,
{
    if p < packet_count(a) {
        lemma_same_run(a, b, p + 1);
    }
}

/// Runs whose packets carry the same payload carry the same payload in all.
pub proof fn lemma_same_payload(a: Seq<u32>, b: Seq<u32>, p: nat, n: nat)
    requires
        forall|q: int| 0 <= q < n ==> #[trigger] packet_payload(b, q) == packet_payload(a, q),
    ensures
        payload_from(a, p, n) == payload_from(b, p, n),
    decreases n - p,
{
    if p < n {
        lemma_same_payload(a, b, p + 1, n);
        assert(packet_payload(b, p as int) == packet_payload(a, p as int));
    }
}

impl Sysex8 {
    /// Sets the group and the stream id of every packet of the message.
    fn set_header(&mut self, group: u8, stream: u8)
        requires
            old(self).wf(),
            group < 16,
        ensures
            final(self).wf(),
            final(self).storage().limit() == old(self).storage().limit(),
            final(self).spec_payload() == old(self).spec_payload(),
            final(self).spec_group() == group,
            final(self).spec_stream_id() == stream,
            old(self).canonical() ==> final(self).canonical(),
    {
        let ghost before = self.buffer.words();
        let n = {
            let ws = self.buffer.specialise_u32().unwrap();
            proof {
                lemma_valid_run(ws@);
            }
            find_run(ws)
        };
        let mut p: usize = 0;
        while p < n
            invariant
                self.buffer.kind() == UnitKind::Word,
                self.buffer.limit() == old(self).storage().limit(),
                self.buffer.wf(),
                self.buffer.words().len() == before.len(),
                n == run_len(before),
                4 * n <= before.len(),
                4 * before.len() <= usize::MAX,
                group < 16,
                p <= n,
                forall|i: int|
                    0 <= i < before.len() && (i % 4 != 0 || i >= 4 * p) ==> self.buffer.words()[i]
                        == before[i],
                forall|q: int|
                    0 <= q < p ==> #[trigger] nibble32(self.buffer.words()[4 * q], 1) == group,
                forall|q: int|
                    0 <= q < p ==> #[trigger] octet32(self.buffer.words()[4 * q], 2) == stream,
                forall|q: int|
                    0 <= q < p ==> #[trigger] nibble32(self.buffer.words()[4 * q], 0) == nibble32(
                        before[4 * q],
                        0,
                    ),
                forall|q: int|
                    0 <= q < p ==> #[trigger] nibble32(self.buffer.words()[4 * q], 2) == nibble32(
                        before[4 * q],
                        2,
                    ),
                forall|q: int|
                    0 <= q < p ==> #[trigger] nibble32(self.buffer.words()[4 * q], 3) == nibble32(
                        before[4 * q],
                        3,
                    ),
                forall|q: int|
                    0 <= q < p ==> #[trigger] octet32(self.buffer.words()[4 * q], 3) == octet32(
                        before[4 * q],
                        3,
                    ),
            decreases n - p,
        {
            let w0 = self.buffer.word(4 * p);
            let a = put_nibble(w0, 1, group);
            let w = put_octet(a, 2, stream);
            self.buffer.set_word(4 * p, w);
            p = p + 1;
        }
        proof {
            let ws = self.buffer.words();
            let count = packet_count(ws);
            assert forall|q: int| 0 <= q < count implies #[trigger] packet_type(ws, q) == packet_type(
                before,
                q,
            ) by {
                if q >= n {
                    assert(ws[4 * q] == before[4 * q]);
                }
            }
            assert forall|q: int| 0 <= q < count implies #[trigger] packet_status(ws, q)
                == packet_status(before, q) by {
                if q >= n {
                    assert(ws[4 * q] == before[4 * q]);
                }
            }
            assert forall|q: int| 0 <= q < count implies #[trigger] packet_size(ws, q) == packet_size(
                before,
                q,
            ) by {
                if q >= n {
                    assert(ws[4 * q] == before[4 * q]);
                }
            }
            lemma_same_run(before, ws, 0);
            lemma_valid_run(before);
            assert forall|q: int| 0 <= q < n implies #[trigger] packet_payload(ws, q)
                =~= packet_payload(before, q) by {
                assert(packet_size(ws, q) == packet_size(before, q));
                assert(octet32(ws[4 * q], 3) == octet32(before[4 * q], 3));
                assert forall|k: int| 0 <= k < packet_size(ws, q) - 1 implies payload_byte(ws, q, k)
                    == payload_byte(before, q, k) by {
                    assert(byte_word(k) <= 3);
                    if byte_word(k) >= 1 {
                        assert((4 * q + byte_word(k)) % 4 != 0);
                    }
                }
            }
            lemma_same_payload(before, ws, 0, n as nat);
            let rw = run_words(ws);
            assert forall|c: int| 0 <= c < chunk_count(rw, 4) implies #[trigger] chunk_nibble(
                rw,
                4,
                c,
                1,
            ) == nibble32(rw[0], 1) by {
                assert(c * 4 == 4 * c);
                assert(packet_group(ws, c) == group);
            }
            let brw = run_words(before);
            assert forall|c: int| 0 <= c < chunk_count(rw, 4) implies #[trigger] chunk_nibble(
                rw,
                4,
                c,
                2,
            ) == chunk_nibble(brw, 4, c, 2) by {
                assert(c * 4 == 4 * c);
                assert(packet_status(ws, c) == packet_status(before, c));
            }
            assert(status_error(rw, 4, sysex8_codes()) == status_error(brw, 4, sysex8_codes()));
            assert forall|q: int| 0 <= q < run_len(ws) implies #[trigger] packet_stream(ws, q)
                == packet_stream(ws, 0) by {}
            assert(!bad_packet_size(ws));
            if old(self).canonical() {
                let len = ump_payload(before).len();
                lemma_laid_out_valid(before, count, len, packet_group(before, 0), packet_stream(before, 0));
                assert(n == count);
                assert forall|q: int| 0 <= q < count implies #[trigger] packet_group(ws, q) == group by {
                    assert(nibble32(ws[4 * q], 1) == group);
                }
                assert forall|q: int| 0 <= q < count implies #[trigger] packet_stream(ws, q) == stream by {
                    assert(octet32(ws[4 * q], 2) == stream);
                }
                assert(octet32(ws[4 * (count - 1)], 3) == octet32(before[4 * (count - 1)], 3));
                assert forall|k: int| len - 13 * (count - 1) <= k < 13 implies #[trigger] octet32(
                    ws[4 * (count - 1) + byte_word(k)],
                    byte_octet(k),
                ) == 0 by {
                    assert(octet32(before[4 * (count - 1) + byte_word(k)], byte_octet(k)) == 0);
                    if byte_word(k) >= 1 {
                        assert((4 * (count - 1) + byte_word(k)) % 4 != 0);
                    }
                }
            }
        }
    }

    /// Sets the group of every packet.
    pub fn set_group(&mut self, group: u8)
        requires
            old(self).wf(),
            group < 16,
        ensures
            final(self).wf(),
            final(self).storage().limit() == old(self).storage().limit(),
            final(self).spec_payload() == old(self).spec_payload(),
            final(self).spec_group() == group,
            final(self).spec_stream_id() == old(self).spec_stream_id(),
            old(self).canonical() ==> final(self).canonical(),
    {
        let stream = self.stream_id();
        self.set_header(group, stream);
    }

    /// Sets the stream id of every packet.
    pub fn set_stream_id(&mut self, stream_id: u8)
        requires
            old(self).wf(),
        ensures
            final(self).wf(),
            final(self).storage().limit() == old(self).storage().limit(),
            final(self).spec_payload() == old(self).spec_payload(),
            final(self).spec_group() == old(self).spec_group(),
            final(self).spec_stream_id() == stream_id,
            old(self).canonical() ==> final(self).canonical(),
    {
        let group = self.group();
        proof {
            lemma_field_bound(self.storage().words()[0]);
        }
        self.set_header(group, stream_id);
    }
}

} // verus!
