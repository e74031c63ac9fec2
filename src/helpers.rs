//! Header fields of a word packet, and the checks on a run of packets that a
//! multi-packet payload must pass.
use crate::bit_ops::{lemma_field32, lemma_masks, nibble32, octet32, set_field32_exec, BitOps};
use crate::error::{Error, InvalidReason};
use vstd::prelude::*;

verus! {

/// The first word of a packet: message type (nibble 0), group (nibble 1),
/// status or op-code (nibble 2), channel or size (nibble 3).
pub open spec fn header_nibble(p: Seq<u32>, i: int) -> u8 {
    nibble32(p[0], i)
}

/// Nibble `i` of the first word of chunk `c` of a buffer cut into chunks of
/// `stride` words.
pub open spec fn chunk_nibble(buffer: Seq<u32>, stride: nat, c: int, i: int) -> u8 {
    nibble32(buffer[c * stride], i)
}

pub open spec fn chunk_count(buffer: Seq<u32>, stride: nat) -> nat {
    buffer.len() / stride
}

/// Every whole chunk carries the group of the first one.
pub open spec fn groups_consistent(buffer: Seq<u32>, stride: nat) -> bool {
    forall|c: int|
        0 <= c < chunk_count(buffer, stride) ==> #[trigger] chunk_nibble(buffer, stride, c, 1)
            == nibble32(buffer[0], 1)
}

/// The codes that mark a packet as a whole payload, or as the first, an
/// interior or the last packet of one.
pub struct StatusCodes {
    pub complete: u8,
    pub begin: u8,
    pub cont: u8,
    pub end: u8,
}

/// The first breach of the status grammar over the whole chunks of a run:
/// one chunk is a complete payload; two or more are a begin, interior
/// continues and an end.
pub open spec fn status_error(buffer: Seq<u32>, stride: nat, codes: StatusCodes) -> Option<
    InvalidReason,
> {
    let n = chunk_count(buffer, stride) as int;
    if n == 1 {
        if chunk_nibble(buffer, stride, 0, 2) != codes.complete {
            Some(InvalidReason::ExpectedComplete)
        } else {
            None
        }
    } else if chunk_nibble(buffer, stride, 0, 2) != codes.begin {
        Some(InvalidReason::ExpectedBegin)
    } else if exists|c: int|
        1 <= c < n - 1 && #[trigger] chunk_nibble(buffer, stride, c, 2) != codes.cont {
        Some(InvalidReason::ExpectedContinue)
    } else if chunk_nibble(buffer, stride, n - 1, 2) != codes.end {
        Some(InvalidReason::ExpectedEnd)
    } else {
        None
    }
}

pub proof fn lemma_chunk_in_bounds(len: nat, stride: nat, c: int)
    requires
        stride >= 1,
        0 <= c < len / stride,
    ensures
        0 <= c * stride,
        c * stride + stride <= len,
{
    assert(0 <= c * stride && c * stride + stride <= len) by (nonlinear_arith)
        requires
            stride >= 1,
            0 <= c < len / stride,
    ;
}

/// `Ok` when the first word carries `type_code` and `op_code`.
pub fn validate_packet(p: &[u32], type_code: u8, op_code: u8) -> (r: Result<(), Error>)
    ensures
        r is Ok <==> (p@.len() > 0 && header_nibble(p@, 0) == type_code && header_nibble(p@, 2)
            == op_code),
        r is Err ==> r == Err::<(), Error>(Error::InvalidData(InvalidReason::IncorrectStatus)),
{
    if p.len() == 0 || p[0].nibble(0) != type_code || p[0].nibble(2) != op_code {
        Err(Error::InvalidData(InvalidReason::IncorrectStatus))
    } else {
        Ok(())
    }
}

/// `Ok` when the buffer holds at least `sz` words.
pub fn validate_buffer_size(p: &[u32], sz: usize) -> (r: Result<(), Error>)
    ensures
        r is Ok <==> p@.len() >= sz,
        r is Err ==> r == Err::<(), Error>(Error::BufferOverflow),
{
    if p.len() < sz {
        Err(Error::BufferOverflow)
    } else {
        Ok(())
    }
}

/// The note number: octet 2 of the first word, in seven bits.
pub fn note_from_packet(p: &[u32]) -> (r: u8)
    requires
        p@.len() >= 1,
    ensures
        r == octet32(p@[0], 2) % 128,
        r < 128,
{
    p[0].octet(2) % 128
}

/// Sets every word to zero.
pub fn clear_buffer(p: &mut [u32])
    ensures
        final(p)@.len() == old(p)@.len(),
        forall|i: int| 0 <= i < final(p)@.len() ==> final(p)@[i] == 0,
{
    let mut i: usize = 0;
    while i < p.len()
        invariant
            i <= p@.len(),
            p@.len() == old(p)@.len(),
            forall|k: int| 0 <= k < i ==> p@[k] == 0,
        decreases p@.len() - i,
    {
        p[i] = 0;
        i = i + 1;
    }
}

/// The header fields of the first word of a packet.
pub struct Header {
    pub message_type: u8,
    pub group: u8,
    pub op_code: u8,
    pub channel: u8,
    pub octet2: u8,
    pub octet3: u8,
}

pub open spec fn header_of(p: Seq<u32>) -> Header {
    Header {
        message_type: nibble32(p[0], 0),
        group: nibble32(p[0], 1),
        op_code: nibble32(p[0], 2),
        channel: nibble32(p[0], 3),
        octet2: octet32(p[0], 2),
        octet3: octet32(p[0], 3),
    }
}

/// `b` is `a` with the first word alone rewritten.
pub open spec fn same_tail(a: Seq<u32>, b: Seq<u32>) -> bool {
    &&& a.len() == b.len()
    &&& forall|i: int| 1 <= i < a.len() ==> b[i] == a[i]
}

/// `w` with nibble `i` (of the header half) set to `v`.
pub fn put_nibble(w: u32, i: usize, v: u8) -> (r: u32)
    requires
        i < 4,
        v < 16,
    ensures
        nibble32(r, i as int) == v,
        forall|j: int| 0 <= j < 8 && j != i ==> #[trigger] nibble32(r, j) == nibble32(w, j),
        forall|o: int| 2 <= o < 4 ==> #[trigger] octet32(r, o) == octet32(w, o),
{
    let s: u32 = (28 - 4 * i) as u32;
    let r = set_field32_exec(w, s, 4, v as u32);
    proof {
        lemma_masks(v as u32, 0);
        lemma_field32(w, s, 4, v as u32, s, 4);
        assert forall|j: int| 0 <= j < 8 && j != i implies #[trigger] nibble32(r, j) == nibble32(
            w,
            j,
        ) by {
            lemma_field32(w, s, 4, v as u32, (28 - 4 * j) as u32, 4);
        }
        assert forall|o: int| 2 <= o < 4 implies #[trigger] octet32(r, o) == octet32(w, o) by {
            lemma_field32(w, s, 4, v as u32, (24 - 8 * o) as u32, 8);
        }
    }
    r
}

/// `w` with octet `o` (of the payload half or the second word) set to `v`.
pub fn put_octet(w: u32, o: usize, v: u8) -> (r: u32)
    requires
        o < 4,
    ensures
        octet32(r, o as int) == v,
        forall|j: int| 0 <= j < 4 && j != o ==> #[trigger] octet32(r, j) == octet32(w, j),
        o >= 2 ==> forall|j: int| 0 <= j < 4 ==> #[trigger] nibble32(r, j) == nibble32(w, j),
{
    let s: u32 = (24 - 8 * o) as u32;
    let r = set_field32_exec(w, s, 8, v as u32);
    proof {
        lemma_masks(v as u32, 0);
        lemma_field32(w, s, 8, v as u32, s, 8);
        assert forall|j: int| 0 <= j < 4 && j != o implies #[trigger] octet32(r, j) == octet32(
            w,
            j,
        ) by {
            lemma_field32(w, s, 8, v as u32, (24 - 8 * j) as u32, 8);
        }
        if o >= 2 {
            assert forall|j: int| 0 <= j < 4 implies #[trigger] nibble32(r, j) == nibble32(w, j) by {
                lemma_field32(w, s, 8, v as u32, (28 - 4 * j) as u32, 4);
            }
        }
    }
    r
}

/// Writes nibble `index` of the first word, leaving the other fields.
fn write_header_nibble(p: &mut [u32], index: usize, v: u8)
    requires
        old(p)@.len() >= 1,
        index < 4,
        v < 16,
    ensures
        same_tail(old(p)@, final(p)@),
        nibble32(final(p)@[0], index as int) == v,
        forall|j: int|
            0 <= j < 4 && j != index ==> #[trigger] nibble32(final(p)@[0], j) == nibble32(
                old(p)@[0],
                j,
            ),
        octet32(final(p)@[0], 2) == octet32(old(p)@[0], 2),
        octet32(final(p)@[0], 3) == octet32(old(p)@[0], 3),
{
    let w = put_nibble(p[0], index, v);
    p[0] = w;
}

/// Writes octet `index` (2 or 3) of the first word, leaving the other fields.
fn write_header_octet(p: &mut [u32], index: usize, v: u8)
    requires
        old(p)@.len() >= 1,
        2 <= index < 4,
    ensures
        same_tail(old(p)@, final(p)@),
        octet32(final(p)@[0], index as int) == v,
        forall|j: int|
            2 <= j < 4 && j != index ==> #[trigger] octet32(final(p)@[0], j) == octet32(
                old(p)@[0],
                j,
            ),
        forall|j: int| 0 <= j < 4 ==> #[trigger] nibble32(final(p)@[0], j) == nibble32(old(p)@[0], j),
{
    let w = put_octet(p[0], index, v);
    p[0] = w;
}

/// Sets the message type (nibble 0 of the first word).
pub fn write_type_to_packet(t: u8, p: &mut [u32])
    requires
        old(p)@.len() >= 1,
        t < 16,
    ensures
        same_tail(old(p)@, final(p)@),
        header_of(final(p)@) == (Header { message_type: t, ..header_of(old(p)@) }),
{
    write_header_nibble(p, 0, t);
}

/// Sets the group (nibble 1 of the first word).
pub fn write_group_to_packet(g: u8, p: &mut [u32])
    requires
        old(p)@.len() >= 1,
        g < 16,
    ensures
        same_tail(old(p)@, final(p)@),
        header_of(final(p)@) == (Header { group: g, ..header_of(old(p)@) }),
{
    write_header_nibble(p, 1, g);
}

/// Sets the channel (nibble 3 of the first word).
pub fn write_channel_to_packet(channel: u8, p: &mut [u32])
    requires
        old(p)@.len() >= 1,
        channel < 16,
    ensures
        same_tail(old(p)@, final(p)@),
        header_of(final(p)@) == (Header { channel: channel, ..header_of(old(p)@) }),
{
    write_header_nibble(p, 3, channel);
}

/// Sets the op-code (nibble 2 of the first word).
pub fn write_op_code_to_packet(op_code: u8, p: &mut [u32])
    requires
        old(p)@.len() >= 1,
        op_code < 16,
    ensures
        same_tail(old(p)@, final(p)@),
        header_of(final(p)@) == (Header { op_code: op_code, ..header_of(old(p)@) }),
{
    write_header_nibble(p, 2, op_code);
}

/// Sets the note number (octet 2 of the first word).
pub fn write_note_to_packet(note: u8, p: &mut [u32])
    requires
        old(p)@.len() >= 1,
        note < 128,
    ensures
        same_tail(old(p)@, final(p)@),
        header_of(final(p)@) == (Header { octet2: note, ..header_of(old(p)@) }),
{
    write_header_octet(p, 2, note);
}

/// Sets the velocity, pressure or controller value (octet 3 of the first
/// word).
pub fn write_velocity_to_packet(v: u8, p: &mut [u32])
    requires
        old(p)@.len() >= 1,
        v < 128,
    ensures
        same_tail(old(p)@, final(p)@),
        header_of(final(p)@) == (Header { octet3: v, ..header_of(old(p)@) }),
{
    write_header_octet(p, 3, v);
}

/// The velocity, pressure or controller value: octet 3 of the first word,
/// in seven bits.
pub fn velocity_from_packet(p: &[u32]) -> (r: u8)
    requires
        p@.len() >= 1,
    ensures
        r == octet32(p@[0], 3) % 128,
{
    p[0].octet(3) % 128
}

/// The group (nibble 1 of the first word).
pub fn group_from_packet(p: &[u32]) -> (r: u8)
    requires
        p@.len() >= 1,
    ensures
        r == header_nibble(p@, 1),
        r < 16,
{
    p[0].nibble(1)
}

/// The channel (nibble 3 of the first word).
pub fn channel_from_packet(p: &[u32]) -> (r: u8)
    requires
        p@.len() >= 1,
    ensures
        r == header_nibble(p@, 3),
        r < 16,
{
    p[0].nibble(3)
}

/// `Ok` when every whole chunk of `stride` words carries the group of the
/// first chunk.
pub fn sysex_group_consistent_groups(buffer: &[u32], stride: usize) -> (r: Result<(), Error>)
    requires
        stride >= 1,
        buffer@.len() >= 1,
    ensures
        r is Ok <==> groups_consistent(buffer@, stride as nat),
        r is Err ==> r == Err::<(), Error>(Error::InvalidData(InvalidReason::InconsistentGroups)),
{
    let first = group_from_packet(buffer);
    let n = buffer.len() / stride;
    let mut c: usize = 0;
    while c < n
        invariant
            c <= n,
            n == chunk_count(buffer@, stride as nat),
            stride >= 1,
            first == nibble32(buffer@[0], 1),
            forall|k: int| 0 <= k < c ==> #[trigger] chunk_nibble(buffer@, stride as nat, k, 1) == first,
        decreases n - c,
    {
        proof {
            lemma_chunk_in_bounds(buffer@.len(), stride as nat, c as int);
            assert((c as int) * (stride as int) + (stride as int) <= buffer@.len());
            assert(buffer@.len() == buffer.len());
        }
        let w = buffer[c * stride];
        assert(w == buffer@[(c as int) * (stride as nat)]);
        if w.nibble(1) != first {
            assert(chunk_nibble(buffer@, stride as nat, c as int, 1) != nibble32(buffer@[0], 1));
            return Err(Error::InvalidData(InvalidReason::InconsistentGroups));
        }
        c = c + 1;
    }
    Ok(())
}

/// `Ok` when the statuses of the whole chunks of `stride` words follow the
/// grammar of a segmented payload; else the first breach.
pub fn validate_sysex_group_statuses(buffer: &[u32], codes: &StatusCodes, stride: usize) -> (r:
    Result<(), Error>)
    requires
        stride >= 1,
        buffer@.len() >= stride,
    ensures
        match status_error(buffer@, stride as nat, *codes) {
            None => r is Ok,
            Some(reason) => r == Err::<(), Error>(Error::InvalidData(reason)),
        },
{
    let n = buffer.len() / stride;
    proof {
        assert(n >= 1) by (nonlinear_arith)
            requires
                n == buffer@.len() / (stride as nat),
                buffer@.len() >= stride,
                stride >= 1,
        ;
        lemma_chunk_in_bounds(buffer@.len(), stride as nat, 0);
        lemma_chunk_in_bounds(buffer@.len(), stride as nat, n - 1);
    }
    let first = buffer[0].nibble(2);
    assert(first == chunk_nibble(buffer@, stride as nat, 0, 2));
    if n == 1 {
        if first != codes.complete {
            return Err(Error::InvalidData(InvalidReason::ExpectedComplete));
        }
        return Ok(());
    }
    if first != codes.begin {
        return Err(Error::InvalidData(InvalidReason::ExpectedBegin));
    }
    let mut c: usize = 1;
    while c < n - 1
        invariant
            1 <= c <= n - 1,
            n == chunk_count(buffer@, stride as nat),
            n >= 2,
            stride >= 1,
            chunk_nibble(buffer@, stride as nat, 0, 2) == codes.begin,
            forall|k: int|
                1 <= k < c ==> #[trigger] chunk_nibble(buffer@, stride as nat, k, 2) == codes.cont,
        decreases n - c,
    {
        proof {
            lemma_chunk_in_bounds(buffer@.len(), stride as nat, c as int);
            assert((c as int) * (stride as int) + (stride as int) <= buffer@.len());
            assert(buffer@.len() == buffer.len());
        }
        let w = buffer[c * stride];
        assert(w == buffer@[(c as int) * (stride as nat)]);
        if w.nibble(2) != codes.cont {
            proof {
                let k = c as int;
                assert(1 <= k < n - 1 && chunk_nibble(buffer@, stride as nat, k, 2) != codes.cont);
                assert(chunk_nibble(buffer@, stride as nat, 0, 2) == codes.begin);
            }
            return Err(Error::InvalidData(InvalidReason::ExpectedContinue));
        }
        c = c + 1;
    }
    if buffer[(n - 1) * stride].nibble(2) != codes.end {
        return Err(Error::InvalidData(InvalidReason::ExpectedEnd));
    }
    Ok(())
}

} // verus!
