//! Lazy reading of a system-exclusive payload, with skipping that moves a
//! packet at a time.
use crate::bit_ops::BitOps;
use crate::buffer::UnitSlice;
use crate::sysex7::{
    packet_count, packet_payload, packet_size, payload_byte, payload_from,
    PACKET_CAPACITY,
};
use vstd::prelude::*;

verus! {

/// Reading `i` bytes into packet `p` of packets `p..n`: the rest of packet
/// `p`, then the following packets.
pub proof fn lemma_payload_skip(ws: Seq<u32>, p: nat, n: nat, i: int)
    requires
        p < n,
        0 <= i <= packet_size(ws, p as int),
    ensures
        payload_from(ws, p, n).skip(i) == packet_payload(ws, p as int).skip(i) + payload_from(
            ws,
            p + 1,
            n,
        ),
{
    assert(payload_from(ws, p, n) == packet_payload(ws, p as int) + payload_from(ws, p + 1, n));
    assert(payload_from(ws, p, n).skip(i) =~= packet_payload(ws, p as int).skip(i) + payload_from(
        ws,
        p + 1,
        n,
    ));
}

/// The iterator returned by a system-exclusive message's `payload`.
#[derive(Debug)]
pub struct PayloadIterator<'a> {
    data: UnitSlice<'a>,
    payload_index: usize,
    packet_index: usize,
}

impl<'a> PayloadIterator<'a> {
    /// Every packet of the words declares at most a packet's capacity; the
    /// position is at a byte that exists, or at the end.
    pub closed spec fn wf(&self) -> bool {
        match self.data {
            UnitSlice::Bytes(bs) => self.payload_index <= bs@.len(),
            UnitSlice::Words(ws) => {
                &&& ws@.len() % 2 == 0
                &&& 3 * ws@.len() <= usize::MAX
                &&& forall|p: int|
                    0 <= p < packet_count(ws@) ==> #[trigger] packet_size(ws@, p)
                        <= PACKET_CAPACITY
                &&& self.packet_index <= packet_count(ws@)
                &&& self.packet_index < packet_count(ws@) ==> self.payload_index < packet_size(
                    ws@,
                    self.packet_index as int,
                )
                &&& self.packet_index == packet_count(ws@) ==> self.payload_index == 0
            },
        }
    }

    /// The bytes that are still to come.
    pub closed spec fn remaining(&self) -> Seq<u8> {
        match self.data {
            UnitSlice::Bytes(bs) => bs@.skip(self.payload_index as int).map_values(
                |b: u8| b % 128,
            ),
            UnitSlice::Words(ws) => payload_from(
                ws@,
                self.packet_index as nat,
                packet_count(ws@),
            ).skip(self.payload_index as int),
        }
    }

    /// Reads the bytes of a byte stream's payload (start and end byte
    /// excluded).
    pub fn from_bytes(data: &'a [u8]) -> (r: Self)
        ensures
            r.wf(),
            r.remaining() == data@.map_values(|b: u8| b % 128),
    {
        let r = PayloadIterator { data: UnitSlice::Bytes(data), payload_index: 0, packet_index: 0 };
        assert(data@.skip(0) =~= data@);
        r
    }

    /// Reads the payload of whole word packets.
    pub fn from_words(data: &'a [u32]) -> (r: Self)
        requires
            data@.len() % 2 == 0,
            3 * data@.len() <= usize::MAX,
            forall|p: int|
                0 <= p < packet_count(data@) ==> #[trigger] packet_size(data@, p)
                    <= PACKET_CAPACITY,
        ensures
            r.wf(),
            r.remaining() == payload_from(data@, 0, packet_count(data@)),
    {
        let mut r = PayloadIterator {
            data: UnitSlice::Words(data),
            payload_index: 0,
            packet_index: 0,
        };
        r.skip_empty(data);
        assert(payload_from(data@, 0, packet_count(data@)).skip(0) =~= payload_from(
            data@,
            0,
            packet_count(data@),
        ));
        r
    }

    /// Moves past packets that carry no payload.
    fn skip_empty(&mut self, ws: &'a [u32])
        requires
            old(self).data == UnitSlice::Words(ws),
            old(self).payload_index == 0,
            old(self).packet_index <= packet_count(ws@),
            ws@.len() % 2 == 0,
            3 * ws@.len() <= usize::MAX,
            forall|p: int|
                0 <= p < packet_count(ws@) ==> #[trigger] packet_size(ws@, p) <= PACKET_CAPACITY,
        ensures
            final(self).wf(),
            final(self).data == old(self).data,
            final(self).remaining() == old(self).remaining(),
            final(self).packet_index >= old(self).packet_index,
    {
        let len = ws.len();
        let n = len / 2;
        while self.packet_index < n && ws[2 * self.packet_index].nibble(3) == 0
            invariant
                len == ws@.len(),
                self.data == UnitSlice::Words(ws),
                self.payload_index == 0,
                old(self).packet_index <= self.packet_index <= n,
                n == packet_count(ws@),
                self.remaining() == old(self).remaining(),
            decreases n - self.packet_index,
        {
            proof {
                let p = self.packet_index as nat;
                lemma_payload_skip(ws@, p, n as nat, 0);
                assert(packet_payload(ws@, p as int).skip(0) =~= Seq::<u8>::empty());
                assert(payload_from(ws@, p + 1, n as nat).skip(0) =~= payload_from(
                    ws@,
                    p + 1,
                    n as nat,
                ));
            }
            self.packet_index = self.packet_index + 1;
        }
    }

    /// The next payload byte, if any.
    pub fn next(&mut self) -> (r: Option<u8>)
        requires
            old(self).wf(),
        ensures
            final(self).wf(),
            old(self).remaining().len() == 0 ==> r is None && final(self).remaining()
                == old(self).remaining(),
            old(self).remaining().len() > 0 ==> r == Some(old(self).remaining()[0])
                && final(self).remaining() == old(self).remaining().skip(1),
    {
        match self.data {
            UnitSlice::Bytes(bs) => {
                if self.payload_index >= bs.len() {
                    None
                } else {
                    let v = bs[self.payload_index] % 128;
                    self.payload_index = self.payload_index + 1;
                    assert(self.remaining() =~= old(self).remaining().skip(1));
                    Some(v)
                }
            },
            UnitSlice::Words(ws) => {
                let n = ws.len() / 2;
                if self.packet_index == n {
                    assert(self.remaining() =~= Seq::<u8>::empty());
                    return None;
                }
                let p = self.packet_index;
                let i = self.payload_index;
                let size = ws[2 * p].nibble(3) as usize;
                let v = ws[2 * p + (i + 2) / 4].octet((i + 2) % 4) % 128;
                proof {
                    lemma_payload_skip(ws@, p as nat, n as nat, i as int);
                    assert(v == payload_byte(ws@, p as int, i as int));
                    assert(old(self).remaining()[0] == v);
                }
                if i + 1 == size {
                    proof {
                        lemma_payload_skip(ws@, p as nat, n as nat, size as int);
                        assert(packet_payload(ws@, p as int).skip(size as int) =~= Seq::<
                            u8,
                        >::empty());
                        assert(payload_from(ws@, p as nat + 1, n as nat).skip(0) =~= payload_from(
                            ws@,
                            p as nat + 1,
                            n as nat,
                        ));
                        assert(old(self).remaining().skip(1) =~= payload_from(
                            ws@,
                            p as nat + 1,
                            n as nat,
                        ));
                    }
                    self.packet_index = p + 1;
                    self.payload_index = 0;
                    self.skip_empty(ws);
                } else {
                    self.payload_index = i + 1;
                    proof {
                        lemma_payload_skip(ws@, p as nat, n as nat, i as int + 1);
                        assert(old(self).remaining().skip(1) =~= self.remaining());
                    }
                }
                Some(v)
            },
        }
    }

    /// The byte `n` places ahead (`nth(0)` is `next`), passing whole packets
    /// without reading them; past the end, `None`, and the iterator is done.
    pub fn nth(&mut self, n: usize) -> (r: Option<u8>)
        requires
            old(self).wf(),
        ensures
            final(self).wf(),
            n < old(self).remaining().len() ==> r == Some(old(self).remaining()[n as int])
                && final(self).remaining() == old(self).remaining().skip(n + 1),
            n >= old(self).remaining().len() ==> r is None && final(self).remaining().len() == 0,
    {
        match self.data {
            UnitSlice::Bytes(bs) => {
                if n >= bs.len() - self.payload_index {
                    self.payload_index = bs.len();
                    assert(self.remaining() =~= Seq::<u8>::empty());
                    None
                } else {
                    self.payload_index = self.payload_index + n;
                    assert(self.remaining() =~= old(self).remaining().skip(n as int));
                    let ghost mid = self.remaining();
                    let r = self.next();
                    assert(old(self).remaining().skip(n + 1) =~= mid.skip(1));
                    r
                }
            },
            UnitSlice::Words(ws) => {
                let len = ws.len();
                let count = len / 2;
                let mut k: usize = n;
                while self.packet_index < count
                    invariant
                        len == ws@.len(),
                        self.data == UnitSlice::Words(ws),
                        self.wf(),
                        count == packet_count(ws@),
                        k <= n,
                        n - k <= old(self).remaining().len(),
                        self.remaining() == old(self).remaining().skip(n - k),
                    decreases count - self.packet_index,
                {
                    let p = self.packet_index;
                    let i = self.payload_index;
                    let size = ws[2 * p].nibble(3) as usize;
                    let left = size - i;
                    proof {
                        lemma_payload_skip(ws@, p as nat, count as nat, i as int);
                    }
                    if k < left {
                        self.payload_index = i + k;
                        proof {
                            let o = old(self).remaining();
                            let pp = packet_payload(ws@, p as int);
                            let rest = payload_from(ws@, p as nat + 1, count as nat);
                            lemma_payload_skip(ws@, p as nat, count as nat, (i + k) as int);
                            assert(o.skip(n - k) == pp.skip(i as int) + rest);
                            assert(o.skip(n as int) =~= o.skip(n - k).skip(k as int));
                            assert((pp.skip(i as int) + rest).skip(k as int) =~= pp.skip(
                                (i + k) as int,
                            ) + rest);
                            assert(self.remaining() =~= old(self).remaining().skip(n as int));
                        }
                        let ghost mid = self.remaining();
                        let r = self.next();
                        proof {
                            let o = old(self).remaining();
                            assert(mid.len() > 0);
                            assert(o.skip(n + 1) =~= mid.skip(1));
                        }
                        return r;
                    }
                    proof {
                        let o = old(self).remaining();
                        let pp = packet_payload(ws@, p as int);
                        let rest = payload_from(ws@, p as nat + 1, count as nat);
                        assert(o.skip(n - k) == pp.skip(i as int) + rest);
                        assert(o.skip(n - k + left) =~= o.skip(n - k).skip(left as int));
                        assert((pp.skip(i as int) + rest).skip(left as int) =~= rest);
                        assert(rest.skip(0) =~= rest);
                    }
                    k = k - left;
                    self.packet_index = p + 1;
                    self.payload_index = 0;
                    self.skip_empty(ws);
                }
                assert(self.remaining() =~= Seq::<u8>::empty());
                None
            },
        }
    }

    /// The number of bytes still to come.
    pub fn len(&self) -> (r: usize)
        requires
            self.wf(),
        ensures
            r == self.remaining().len(),
    {
        match self.data {
            UnitSlice::Bytes(bs) => bs.len() - self.payload_index,
            UnitSlice::Words(ws) => {
                let len = ws.len();
                let count = len / 2;
                let mut total: usize = 0;
                let mut p: usize = self.packet_index;
                proof {
                    if p < count {
                        lemma_payload_skip(ws@, p as nat, count as nat, 0);
                    }
                }
                while p < count
                    invariant
                        len == ws@.len(),
                        self.wf(),
                        self.data == UnitSlice::Words(ws),
                        count == packet_count(ws@),
                        self.packet_index <= p <= count,
                        total + payload_from(ws@, p as nat, count as nat).len() == payload_from(
                            ws@,
                            self.packet_index as nat,
                            count as nat,
                        ).len(),
                        total <= PACKET_CAPACITY * (p - self.packet_index),
                    decreases count - p,
                {
                    assert(payload_from(ws@, p as nat, count as nat) == packet_payload(
                        ws@,
                        p as int,
                    ) + payload_from(ws@, p as nat + 1, count as nat));
                    total = total + ws[2 * p].nibble(3) as usize;
                    p = p + 1;
                }
                total - self.payload_index
            },
        }
    }
}

} // verus!
