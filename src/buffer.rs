//! Caller-owned storage in one of two representations: a stream of bytes or
//! a stream of 32-bit words. The storage is either growable or bounded by a
//! fixed capacity, in which case a resize past the bound is refused.
use crate::error::BufferOverflow;
use vstd::prelude::*;

verus! {

/// Which kind of unit a buffer holds.
#[derive(Clone, Copy, Debug, PartialEq, Eq, Structural)]
pub enum UnitKind {
    Byte,
    Word,
}

#[derive(Debug)]
pub enum Units {
    Bytes(Vec<u8>),
    Words(Vec<u32>),
}

/// A borrowed view of the units of a buffer.
#[derive(Debug, PartialEq, Eq)]
pub enum UnitSlice<'a> {
    Bytes(&'a [u8]),
    Words(&'a [u32]),
}

impl<'a> UnitSlice<'a> {
    pub open spec fn kind(&self) -> UnitKind {
        match self {
            UnitSlice::Bytes(_) => UnitKind::Byte,
            UnitSlice::Words(_) => UnitKind::Word,
        }
    }
}

#[derive(Debug)]
pub struct Buffer {
    units: Units,
    limit: Option<usize>,
}

/// `v` cut or extended to `size`, the new places holding `fill`.
pub open spec fn resized<T>(v: Seq<T>, size: nat, fill: T) -> Seq<T> {
    Seq::new(size, |i: int| if i < v.len() { v[i] } else { fill })
}

fn resize_vec<T: Copy>(v: &mut Vec<T>, size: usize, fill: T)
    ensures
        final(v)@ == resized(old(v)@, size as nat, fill),
{
    if size <= v.len() {
        v.truncate(size);
    } else {
        let ghost start = v@;
        while v.len() < size
            invariant
                v@.len() <= size,
                start.len() < size,
                forall|i: int| 0 <= i < v@.len() ==> v@[i] == resized(start, size as nat, fill)[i],
                start.len() <= v@.len(),
            decreases size - v@.len(),
        {
            v.push(fill);
        }
    }
    assert(v@ =~= resized(old(v)@, size as nat, fill));
}

impl Buffer {
    /// Growable byte storage holding `data`.
    pub fn from_bytes(data: Vec<u8>) -> (r: Buffer)
        ensures
            r.wf(),
            r.kind() == UnitKind::Byte,
            r.bytes() == data@,
            r.limit() is None,
    {
        Buffer { units: Units::Bytes(data), limit: None }
    }

    /// Growable word storage holding `data`.
    pub fn from_words(data: Vec<u32>) -> (r: Buffer)
        ensures
            r.wf(),
            r.kind() == UnitKind::Word,
            r.words() == data@,
            r.limit() is None,
    {
        Buffer { units: Units::Words(data), limit: None }
    }

    /// Byte storage of fixed capacity `capacity`, holding `capacity` zeros.
    pub fn fixed_bytes(capacity: usize) -> (r: Buffer)
        ensures
            r.wf(),
            r.kind() == UnitKind::Byte,
            r.bytes() == Seq::new(capacity as nat, |i: int| 0u8),
            r.limit() == Some(capacity),
    {
        let mut v: Vec<u8> = Vec::new();
        resize_vec(&mut v, capacity, 0u8);
        assert(v@ =~= Seq::new(capacity as nat, |i: int| 0u8));
        Buffer { units: Units::Bytes(v), limit: Some(capacity) }
    }

    /// Word storage of fixed capacity `capacity`, holding `capacity` zeros.
    pub fn fixed_words(capacity: usize) -> (r: Buffer)
        ensures
            r.wf(),
            r.kind() == UnitKind::Word,
            r.words() == Seq::new(capacity as nat, |i: int| 0u32),
            r.limit() == Some(capacity),
    {
        let mut v: Vec<u32> = Vec::new();
        resize_vec(&mut v, capacity, 0u32);
        assert(v@ =~= Seq::new(capacity as nat, |i: int| 0u32));
        Buffer { units: Units::Words(v), limit: Some(capacity) }
    }

    pub closed spec fn kind(&self) -> UnitKind {
        match self.units {
            Units::Bytes(_) => UnitKind::Byte,
            Units::Words(_) => UnitKind::Word,
        }
    }

    /// The bytes held, or nothing where the buffer holds words.
    pub closed spec fn bytes(&self) -> Seq<u8> {
        match self.units {
            Units::Bytes(v) => v@,
            Units::Words(_) => Seq::empty(),
        }
    }

    /// The words held, or nothing where the buffer holds bytes.
    pub closed spec fn words(&self) -> Seq<u32> {
        match self.units {
            Units::Bytes(_) => Seq::empty(),
            Units::Words(v) => v@,
        }
    }

    /// The fixed capacity, where there is one.
    pub closed spec fn limit(&self) -> Option<usize> {
        self.limit
    }

    pub open spec fn spec_len(&self) -> nat {
        match self.kind() {
            UnitKind::Byte => self.bytes().len(),
            UnitKind::Word => self.words().len(),
        }
    }

    /// The length stays within the fixed capacity.
    pub open spec fn wf(&self) -> bool {
        self.limit() is Some ==> self.spec_len() <= self.limit()->Some_0
    }

    /// The length that a request for `size` units is granted.
    pub open spec fn granted(&self, size: nat) -> nat {
        match self.limit() {
            Some(cap) => if size <= cap {
                size
            } else {
                cap as nat
            },
            None => size,
        }
    }

    pub fn unit_kind(&self) -> (r: UnitKind)
        ensures
            r == self.kind(),
    {
        match &self.units {
            Units::Bytes(_) => UnitKind::Byte,
            Units::Words(_) => UnitKind::Word,
        }
    }

    pub fn len(&self) -> (r: usize)
        ensures
            r == self.spec_len(),
    {
        match &self.units {
            Units::Bytes(v) => v.len(),
            Units::Words(v) => v.len(),
        }
    }

    /// The fixed capacity, where there is one.
    pub fn capacity(&self) -> (r: Option<usize>)
        ensures
            r == self.limit(),
    {
        self.limit
    }

    /// The units as bytes, where the buffer holds bytes.
    pub fn specialise_u8(&self) -> (r: Option<&[u8]>)
        ensures
            self.kind() == UnitKind::Byte <==> r is Some,
            r is Some ==> r->Some_0@ == self.bytes(),
    {
        match &self.units {
            Units::Bytes(v) => Some(v.as_slice()),
            Units::Words(_) => None,
        }
    }

    /// The units as words, where the buffer holds words.
    pub fn specialise_u32(&self) -> (r: Option<&[u32]>)
        ensures
            self.kind() == UnitKind::Word <==> r is Some,
            r is Some ==> r->Some_0@ == self.words(),
    {
        match &self.units {
            Units::Bytes(_) => None,
            Units::Words(v) => Some(v.as_slice()),
        }
    }

    /// Byte `i`.
    pub fn byte(&self, i: usize) -> (r: u8)
        requires
            self.kind() == UnitKind::Byte,
            i < self.bytes().len(),
        ensures
            r == self.bytes()[i as int],
    {
        match &self.units {
            Units::Bytes(v) => v[i],
            Units::Words(_) => 0,
        }
    }

    /// Word `i`.
    pub fn word(&self, i: usize) -> (r: u32)
        requires
            self.kind() == UnitKind::Word,
            i < self.words().len(),
        ensures
            r == self.words()[i as int],
    {
        match &self.units {
            Units::Bytes(_) => 0,
            Units::Words(v) => v[i],
        }
    }

    pub fn set_byte(&mut self, i: usize, b: u8)
        requires
            old(self).kind() == UnitKind::Byte,
            i < old(self).bytes().len(),
        ensures
            final(self).kind() == UnitKind::Byte,
            final(self).bytes() == old(self).bytes().update(i as int, b),
            final(self).words() == old(self).words(),
            old(self).wf() ==> final(self).wf(),
            final(self).limit() == old(self).limit(),
    {
        match &mut self.units {
            Units::Bytes(v) => {
                v.set(i, b);
            },
            Units::Words(_) => {},
        }
    }

    pub fn set_word(&mut self, i: usize, w: u32)
        requires
            old(self).kind() == UnitKind::Word,
            i < old(self).words().len(),
        ensures
            final(self).kind() == UnitKind::Word,
            final(self).words() == old(self).words().update(i as int, w),
            final(self).bytes() == old(self).bytes(),
            old(self).wf() ==> final(self).wf(),
            final(self).limit() == old(self).limit(),
    {
        match &mut self.units {
            Units::Bytes(_) => {},
            Units::Words(v) => {
                v.set(i, w);
            },
        }
    }

    /// Changes the length to `size`: units up to the shorter of the two
    /// lengths are kept, new units are zero. Only growable storage can be
    /// resized without a bound.
    pub fn resize(&mut self, size: usize)
        requires
            old(self).limit() is None,
        ensures
            final(self).wf(),
            final(self).kind() == old(self).kind(),
            final(self).limit() == old(self).limit(),
            final(self).bytes() == resized(old(self).bytes(), if old(self).kind()
                == UnitKind::Byte {
                size as nat
            } else {
                0
            }, 0u8),
            final(self).words() == resized(old(self).words(), if old(self).kind()
                == UnitKind::Word {
                size as nat
            } else {
                0
            }, 0u32),
    {
        match &mut self.units {
            Units::Bytes(v) => {
                resize_vec(v, size, 0u8);
            },
            Units::Words(v) => {
                resize_vec(v, size, 0u32);
            },
        }
    }

    /// Changes the length to `size` where the capacity allows it, else to the
    /// capacity, and then reports the overflow.
    pub fn try_resize(&mut self, size: usize) -> (r: Result<(), BufferOverflow>)
        ensures
            final(self).kind() == old(self).kind(),
            final(self).limit() == old(self).limit(),
            r is Ok <==> old(self).granted(size as nat) == size,
            final(self).wf(),
            final(self).bytes() == resized(old(self).bytes(), if old(self).kind()
                == UnitKind::Byte {
                old(self).granted(size as nat)
            } else {
                0
            }, 0u8),
            final(self).words() == resized(old(self).words(), if old(self).kind()
                == UnitKind::Word {
                old(self).granted(size as nat)
            } else {
                0
            }, 0u32),
    {
        let (granted, r) = match self.limit {
            Some(cap) => if size <= cap {
                (size, Ok(()))
            } else {
                (cap, Err(BufferOverflow))
            },
            None => (size, Ok(())),
        };
        match &mut self.units {
            Units::Bytes(v) => {
                resize_vec(v, granted, 0u8);
            },
            Units::Words(v) => {
                resize_vec(v, granted, 0u32);
            },
        }
        r
    }
}

} // verus!
