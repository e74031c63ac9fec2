//! Laying a payload out over word packets: every packet but the last is
//! full, the statuses run complete, or start, continue ... end, and all
//! packets share one group.
use crate::bit_ops::{lemma_masks, nibble32, octet32};
use crate::buffer::{Buffer, UnitKind};
use crate::helpers::{
    chunk_count, chunk_nibble, groups_consistent, put_nibble, put_octet, status_error,
};
use crate::sysex7::{
    byte_octet, byte_word, packet_count, packet_group, packet_payload, packet_size,
    packet_status, packet_type, payload_byte, payload_from, run_from, run_len, run_words,
    sysex7_codes, ump_error, ump_payload, PACKET_CAPACITY, STATUS_COMPLETE, STATUS_CONTINUE,
    STATUS_END, STATUS_START, UMP_MESSAGE_TYPE,
};
use vstd::prelude::*;

verus! {

/// The status of packet `p` of `n`.
pub open spec fn expected_status(p: int, n: int) -> u8 {
    if n == 1 {
        STATUS_COMPLETE
    } else if p == 0 {
        STATUS_START
    } else if p < n - 1 {
        STATUS_CONTINUE
    } else {
        STATUS_END
    }
}

/// The size of packet `p` of `n` that carry `len` bytes.
pub open spec fn expected_size(p: int, n: int, len: int) -> int {
    if p < n - 1 {
        PACKET_CAPACITY as int
    } else {
        len - PACKET_CAPACITY * (n - 1)
    }
}

/// The number of packets that `len` payload bytes take.
pub open spec fn packets_for(len: nat) -> nat {
    if len == 0 {
        1
    } else {
        ((len + 5) / 6) as nat
    }
}

/// The words hold `n` packets that carry `len` bytes in the order of the
/// payload, with `group`.
pub open spec fn laid_out(ws: Seq<u32>, n: nat, len: nat, group: u8) -> bool {
    &&& n >= 1
    &&& packet_count(ws) == n
    &&& 6 * (n - 1) <= len <= 6 * n
    &&& (n > 1 ==> len > 6 * (n - 1))
    &&& forall|p: int| 0 <= p < n ==> #[trigger] packet_type(ws, p) == UMP_MESSAGE_TYPE
    &&& forall|p: int| 0 <= p < n ==> #[trigger] packet_group(ws, p) == group
    &&& forall|p: int| 0 <= p < n ==> #[trigger] packet_status(ws, p) == expected_status(p, n as int)
    &&& forall|p: int|
        0 <= p < n ==> #[trigger] packet_size(ws, p) == expected_size(p, n as int, len as int)
}

/// The bytes past the payload in the last packet are zero.
pub open spec fn tail_clear(ws: Seq<u32>, n: nat, len: nat) -> bool {
    forall|k: int|
        len - 6 * (n - 1) <= k < 6 ==> #[trigger] octet32(ws[2 * (n - 1) + byte_word(k)], byte_octet(k))
            == 0
}

/// Payload byte `i` of a laid-out run.
pub open spec fn laid_byte(ws: Seq<u32>, i: int) -> u8 {
    payload_byte(ws, i / 6, i % 6)
}

pub proof fn lemma_run_all(ws: Seq<u32>, p: nat)
    requires
        p <= packet_count(ws),
        forall|q: int| p <= q < packet_count(ws) ==> #[trigger] packet_type(ws, q) == UMP_MESSAGE_TYPE,
    ensures
        run_from(ws, p) == packet_count(ws) - p,
    decreases packet_count(ws) - p,
{
    if p < packet_count(ws) {
        lemma_run_all(ws, p + 1);
    }
}

pub proof fn lemma_laid_payload_from(ws: Seq<u32>, n: nat, len: nat, g: u8, p: nat)
    requires
        laid_out(ws, n, len, g),
        p < n,
    ensures
        payload_from(ws, p, n) =~= Seq::new(
            (len - 6 * p) as nat,
            |i: int| payload_byte(ws, p + i / 6, i % 6),
        ),
    decreases n - p,
{
    assert(packet_size(ws, p as int) == expected_size(p as int, n as int, len as int));
    if p + 1 < n {
        lemma_laid_payload_from(ws, n, len, g, p + 1);
        let a = packet_payload(ws, p as int);
        let b = payload_from(ws, p + 1, n);
        assert forall|i: int| 0 <= i < len - 6 * p implies #[trigger] (a + b)[i] == payload_byte(
            ws,
            p + i / 6,
            i % 6,
        ) by {
            if i >= 6 {
                assert((i - 6) / 6 + 1 == i / 6 && (i - 6) % 6 == i % 6);
            }
        }
    } else {
        assert(payload_from(ws, p + 1, n) =~= Seq::<u8>::empty());
    }
}

/// A laid-out run is a valid message whose payload is read in place.
pub proof fn lemma_laid_out_valid(ws: Seq<u32>, n: nat, len: nat, g: u8)
    requires
        laid_out(ws, n, len, g),
    ensures
        ump_error(ws) is None,
        run_len(ws) == n,
        ump_payload(ws) =~= Seq::new(len, |i: int| laid_byte(ws, i)),
{
    lemma_run_all(ws, 0);
    let rw = run_words(ws);
    assert(rw.len() == 2 * n);
    assert(chunk_count(rw, 2) == n);
    assert forall|c: int| 0 <= c < n implies #[trigger] chunk_nibble(rw, 2, c, 1) == packet_group(
        ws,
        c,
    ) by {
        assert(c * 2 == 2 * c);
    }
    assert forall|c: int| 0 <= c < n implies #[trigger] chunk_nibble(rw, 2, c, 2) == packet_status(
        ws,
        c,
    ) by {
        assert(c * 2 == 2 * c);
    }
    assert(packet_group(ws, 0) == g);
    assert(groups_consistent(rw, 2));
    assert(chunk_nibble(rw, 2, 0, 2) == packet_status(ws, 0));
    if n > 1 {
        assert forall|c: int| 1 <= c < n - 1 implies #[trigger] chunk_nibble(rw, 2, c, 2)
            == STATUS_CONTINUE by {
            assert(packet_status(ws, c) == expected_status(c, n as int));
        }
        assert(chunk_nibble(rw, 2, n - 1, 2) == packet_status(ws, n - 1));
    }
    assert(status_error(rw, 2, sysex7_codes()) is None);
    lemma_laid_payload_from(ws, n, len, g, 0);
    assert(ump_payload(ws) =~= Seq::new(len, |i: int| laid_byte(ws, i)));
}

/// Distinct payload positions of a laid-out run sit at distinct places.
pub proof fn lemma_byte_position(i: int, j: int)
    requires
        0 <= i,
        0 <= j,
        i != j,
    ensures
        2 * (i / 6) + byte_word(i % 6) != 2 * (j / 6) + byte_word(j % 6) || byte_octet(i % 6)
            != byte_octet(j % 6),
{
    let a = i / 6;
    let r = i % 6;
    let b = j / 6;
    let s = j % 6;
    assert(i == 6 * a + r && 0 <= r < 6);
    assert(j == 6 * b + s && 0 <= s < 6);
    if 2 * a + byte_word(r) == 2 * b + byte_word(s) && byte_octet(r) == byte_octet(s) {
        assert(0 <= byte_word(r) <= 1 && 0 <= byte_word(s) <= 1);
        assert(a == b);
        assert(r == s);
    }
}

/// The header of a packet: type, group, status and size, the payload
/// octets of the first word kept.
fn with_header(w: u32, t: u8, g: u8, status: u8, size: u8) -> (r: u32)
    requires
        t < 16,
        g < 16,
        status < 16,
        size < 16,
    ensures
        nibble32(r, 0) == t,
        nibble32(r, 1) == g,
        nibble32(r, 2) == status,
        nibble32(r, 3) == size,
        forall|o: int| 2 <= o < 4 ==> #[trigger] octet32(r, o) == octet32(w, o),
{
    let a = put_nibble(w, 0, t);
    let b = put_nibble(a, 1, g);
    let c = put_nibble(b, 2, status);
    let d = put_nibble(c, 3, size);
    assert(nibble32(d, 0) == nibble32(c, 0) && nibble32(c, 0) == nibble32(b, 0));
    assert(nibble32(d, 1) == nibble32(c, 1));
    assert(forall|o: int| 2 <= o < 4 ==> #[trigger] octet32(d, o) == octet32(c, o) && octet32(c, o)
        == octet32(b, o) && octet32(b, o) == octet32(a, o) && octet32(a, o) == octet32(w, o));
    d
}

/// Writes the headers of every whole packet of `buffer` for a payload of
/// `payload_size` bytes, cut to what the packets hold, and clears the bytes
/// past the payload in the last packet. Returns the payload length laid
/// out.
pub fn lay_out(buffer: &mut Buffer, payload_size: usize, group: u8) -> (len: usize)
    requires
        old(buffer).kind() == UnitKind::Word,
        old(buffer).words().len() >= 2,
        3 * old(buffer).words().len() <= usize::MAX,
        packet_count(old(buffer).words()) == 1 || payload_size > 6 * (packet_count(
            old(buffer).words(),
        ) - 1),
        group < 16,
    ensures
        final(buffer).kind() == UnitKind::Word,
        final(buffer).limit() == old(buffer).limit(),
        final(buffer).words().len() == old(buffer).words().len(),
        old(buffer).wf() ==> final(buffer).wf(),
        len as nat == if payload_size <= 6 * packet_count(old(buffer).words()) {
            payload_size as nat
        } else {
            6 * packet_count(old(buffer).words())
        },
        laid_out(final(buffer).words(), packet_count(old(buffer).words()), len as nat, group),
        tail_clear(final(buffer).words(), packet_count(old(buffer).words()), len as nat),
{
    let count = buffer.len() / 2;
    let len: usize = if payload_size <= 6 * count {
        payload_size
    } else {
        6 * count
    };
    let ghost n = count as nat;
    let mut p: usize = 0;
    while p < count
        invariant
            buffer.kind() == UnitKind::Word,
            buffer.limit() == old(buffer).limit(),
            buffer.words().len() == old(buffer).words().len(),
            old(buffer).wf() ==> buffer.wf(),
            count == packet_count(buffer.words()),
            count >= 1,
            6 * (count - 1) <= len <= 6 * count,
            count > 1 ==> len > 6 * (count - 1),
            group < 16,
            p <= count,
            forall|q: int| 0 <= q < p ==> #[trigger] packet_type(buffer.words(), q) == UMP_MESSAGE_TYPE,
            forall|q: int| 0 <= q < p ==> #[trigger] packet_group(buffer.words(), q) == group,
            forall|q: int|
                0 <= q < p ==> #[trigger] packet_status(buffer.words(), q) == expected_status(
                    q,
                    count as int,
                ),
            forall|q: int|
                0 <= q < p ==> #[trigger] packet_size(buffer.words(), q) == expected_size(
                    q,
                    count as int,
                    len as int,
                ),
        decreases count - p,
    {
        let status: u8 = if count == 1 {
            STATUS_COMPLETE
        } else if p == 0 {
            STATUS_START
        } else if p < count - 1 {
            STATUS_CONTINUE
        } else {
            STATUS_END
        };
        let size: u8 = if p < count - 1 {
            6
        } else {
            (len - 6 * (count - 1)) as u8
        };
        let w = with_header(buffer.word(2 * p), UMP_MESSAGE_TYPE, group, status, size);
        let ghost before = buffer.words();
        buffer.set_word(2 * p, w);
        proof {
            let ws = buffer.words();
            assert forall|q: int| 0 <= q < p implies #[trigger] packet_type(ws, q) == packet_type(
                before,
                q,
            ) by {
                assert(ws[2 * q] == before[2 * q]);
            }
            assert forall|q: int| 0 <= q < p implies #[trigger] packet_group(ws, q) == packet_group(
                before,
                q,
            ) by {
                assert(ws[2 * q] == before[2 * q]);
            }
            assert forall|q: int| 0 <= q < p implies #[trigger] packet_status(ws, q)
                == packet_status(before, q) by {
                assert(ws[2 * q] == before[2 * q]);
            }
            assert forall|q: int| 0 <= q < p implies #[trigger] packet_size(ws, q) == packet_size(
                before,
                q,
            ) by {
                assert(ws[2 * q] == before[2 * q]);
            }
            assert(ws[2 * p as int] == w);
            assert(packet_type(ws, p as int) == UMP_MESSAGE_TYPE);
            assert(packet_group(ws, p as int) == group);
            assert(packet_status(ws, p as int) == expected_status(p as int, count as int));
            assert(packet_size(ws, p as int) == expected_size(p as int, count as int, len as int));
        }
        p = p + 1;
    }
    let last = count - 1;
    let mut k: usize = len - 6 * last;
    while k < 6
        invariant
            buffer.kind() == UnitKind::Word,
            buffer.limit() == old(buffer).limit(),
            buffer.words().len() == old(buffer).words().len(),
            old(buffer).wf() ==> buffer.wf(),
            count == packet_count(buffer.words()),
            last == count - 1,
            laid_out(buffer.words(), count as nat, len as nat, group),
            len - 6 * last <= k <= 6,
            forall|j: int|
                len - 6 * last <= j < k ==> #[trigger] octet32(
                    buffer.words()[2 * last + byte_word(j)],
                    byte_octet(j),
                ) == 0,
        decreases 6 - k,
    {
        let idx = 2 * last + (k + 2) / 4;
        let o = (k + 2) % 4;
        let ghost before = buffer.words();
        let w = put_octet(buffer.word(idx), o, 0);
        buffer.set_word(idx, w);
        proof {
            let ws = buffer.words();
            assert forall|q: int| 0 <= q < count implies #[trigger] nibble32(ws[2 * q], 0) == nibble32(
                before[2 * q],
                0,
            ) && nibble32(ws[2 * q], 1) == nibble32(before[2 * q], 1) && nibble32(ws[2 * q], 2)
                == nibble32(before[2 * q], 2) && nibble32(ws[2 * q], 3) == nibble32(
                before[2 * q],
                3,
            ) by {
                if 2 * q == idx {
                    assert(o >= 2);
                }
            }
            assert(forall|q: int| 0 <= q < count ==> #[trigger] packet_type(ws, q) == packet_type(before, q));
            assert(forall|q: int| 0 <= q < count ==> #[trigger] packet_group(ws, q) == packet_group(before, q));
            assert(forall|q: int| 0 <= q < count ==> #[trigger] packet_status(ws, q) == packet_status(before, q));
            assert(forall|q: int| 0 <= q < count ==> #[trigger] packet_size(ws, q) == packet_size(before, q));
            assert forall|j: int| len - 6 * last <= j < k + 1 implies #[trigger] octet32(
                ws[2 * last + byte_word(j)],
                byte_octet(j),
            ) == 0 by {
                if j != k {
                    lemma_byte_position(6 * last + j, 6 * last + k);
                    assert((6 * last + j) / 6 == last && (6 * last + j) % 6 == j);
                    assert((6 * last + k) / 6 == last && (6 * last + k) % 6 == k);
                }
            }
        }
        k = k + 1;
    }
    len
}

/// Writes payload byte `index` of a laid-out run in place.
pub fn put_laid_byte(
    buffer: &mut Buffer,
    index: usize,
    datum: u8,
    Ghost(n): Ghost<nat>,
    Ghost(len): Ghost<nat>,
    Ghost(g): Ghost<u8>,
)
    requires
        old(buffer).kind() == UnitKind::Word,
        laid_out(old(buffer).words(), n, len, g),
        tail_clear(old(buffer).words(), n, len),
        index < len,
        datum < 128,
    ensures
        final(buffer).kind() == UnitKind::Word,
        final(buffer).limit() == old(buffer).limit(),
        final(buffer).words().len() == old(buffer).words().len(),
        old(buffer).wf() ==> final(buffer).wf(),
        laid_out(final(buffer).words(), n, len, g),
        tail_clear(final(buffer).words(), n, len),
        Seq::new(len, |i: int| laid_byte(final(buffer).words(), i)) == Seq::new(
            len,
            |i: int| laid_byte(old(buffer).words(), i),
        ).update(index as int, datum),
{
    let r = index % 6;
    let j = 2 * (index / 6) + (r + 2) / 4;
    let o = (r + 2) % 4;
    let ghost before = buffer.words();
    proof {
        assert(index / 6 < n);
        assert(j < 2 * n);
    }
    let w = put_octet(buffer.word(j), o, datum);
    buffer.set_word(j, w);
    proof {
        let ws = buffer.words();
        assert forall|q: int| 0 <= q < n implies #[trigger] nibble32(ws[2 * q], 0) == nibble32(
            before[2 * q],
            0,
        ) && nibble32(ws[2 * q], 1) == nibble32(before[2 * q], 1) && nibble32(ws[2 * q], 2)
            == nibble32(before[2 * q], 2) && nibble32(ws[2 * q], 3) == nibble32(before[2 * q], 3) by {
            if 2 * q == j {
                assert(o >= 2);
            }
        }
        assert(forall|q: int| 0 <= q < n ==> #[trigger] packet_type(ws, q) == packet_type(before, q));
        assert(forall|q: int| 0 <= q < n ==> #[trigger] packet_group(ws, q) == packet_group(before, q));
        assert(forall|q: int| 0 <= q < n ==> #[trigger] packet_status(ws, q) == packet_status(before, q));
        assert(forall|q: int| 0 <= q < n ==> #[trigger] packet_size(ws, q) == packet_size(before, q));
        assert forall|i: int| 0 <= i < len implies #[trigger] laid_byte(ws, i) == if i == index {
            datum
        } else {
            laid_byte(before, i)
        } by {
            if i != index {
                lemma_byte_position(i, index as int);
            } else {
                lemma_masks(datum as u32, 0);
            }
        }
        assert(Seq::new(len, |i: int| laid_byte(ws, i)) =~= Seq::new(
            len,
            |i: int| laid_byte(before, i),
        ).update(index as int, datum));
        assert forall|k: int| len - 6 * (n - 1) <= k < 6 implies #[trigger] octet32(
            ws[2 * (n - 1) + byte_word(k)],
            byte_octet(k),
        ) == 0 by {
            lemma_byte_position(6 * (n - 1) + k, index as int);
            assert((6 * (n - 1) + k) / 6 == n - 1 && (6 * (n - 1) + k) % 6 == k);
        }
    }
}

} // verus!
