//! Typed message fields over either storage representation.
//!
//! A field says where it lives in word storage (a [`UmpSchema`]) and in byte
//! storage (a [`BytesSchema`]). Reading and writing dispatch on the kind of
//! units the buffer holds; a field that exists in one representation only
//! reads its default (0) from the other and leaves it untouched on write.
use crate::bit_ops::{
    get_field32, get_field32_exec, get_field8, get_field8_exec, lemma_field32, lemma_field8,
    low_mask32, low_mask8, nibble32, nibble8, set_field32, set_field32_exec, set_field8,
    set_field8_exec, BitOps,
};
use crate::buffer::{Buffer, UnitKind};
use crate::error::{Error, InvalidReason};
use vstd::prelude::*;

verus! {

/// A field of word storage: `width` bits of word `word`, starting `shift`
/// bits above its least significant bit.
#[derive(Clone, Copy, Debug, PartialEq, Eq, Structural)]
pub struct UmpSchema {
    pub word: usize,
    pub shift: u32,
    pub width: u32,
}

/// A field of byte storage: `width` bits of byte `byte`, starting `shift`
/// bits above its least significant bit.
#[derive(Clone, Copy, Debug, PartialEq, Eq, Structural)]
pub struct BytesSchema {
    pub byte: usize,
    pub shift: u8,
    pub width: u8,
}

impl UmpSchema {
    pub open spec fn valid(&self) -> bool {
        1 <= self.width && self.shift + self.width <= 32
    }

    pub open spec fn fits(&self, ws: Seq<u32>) -> bool {
        self.valid() && self.word < ws.len()
    }

    pub open spec fn get(&self, ws: Seq<u32>) -> u32 {
        get_field32(ws[self.word as int], self.shift, self.width)
    }

    pub open spec fn put(&self, ws: Seq<u32>, v: u32) -> Seq<u32> {
        ws.update(self.word as int, set_field32(ws[self.word as int], self.shift, self.width, v))
    }

    /// The largest value the field holds.
    pub open spec fn max(&self) -> u32 {
        low_mask32(self.width)
    }
}

impl BytesSchema {
    pub open spec fn valid(&self) -> bool {
        1 <= self.width && self.shift + self.width <= 8
    }

    pub open spec fn fits(&self, bs: Seq<u8>) -> bool {
        self.valid() && self.byte < bs.len()
    }

    pub open spec fn get(&self, bs: Seq<u8>) -> u8 {
        get_field8(bs[self.byte as int], self.shift, self.width)
    }

    pub open spec fn put(&self, bs: Seq<u8>, v: u8) -> Seq<u8> {
        bs.update(self.byte as int, set_field8(bs[self.byte as int], self.shift, self.width, v))
    }

    pub open spec fn max(&self) -> u8 {
        low_mask8(self.width)
    }
}

/// A field's schema fits the storage that it is read from or written to.
pub open spec fn schema_fits(buffer: Buffer, bytes: BytesSchema, ump: UmpSchema) -> bool {
    match buffer.kind() {
        UnitKind::Byte => bytes.fits(buffer.bytes()),
        UnitKind::Word => ump.fits(buffer.words()),
    }
}

fn read_ump(buffer: &Buffer, s: UmpSchema) -> (r: u32)
    requires
        buffer.kind() == UnitKind::Word,
        s.fits(buffer.words()),
    ensures
        r == s.get(buffer.words()),
        r <= s.max(),
{
    get_field32_exec(buffer.word(s.word), s.shift, s.width)
}

fn write_ump(buffer: &mut Buffer, s: UmpSchema, v: u32)
    requires
        old(buffer).kind() == UnitKind::Word,
        s.fits(old(buffer).words()),
    ensures
        final(buffer).kind() == UnitKind::Word,
        final(buffer).words() == s.put(old(buffer).words(), v),
        final(buffer).limit() == old(buffer).limit(),
        old(buffer).wf() ==> final(buffer).wf(),
{
    let w = set_field32_exec(buffer.word(s.word), s.shift, s.width, v);
    buffer.set_word(s.word, w);
}

fn read_bytes(buffer: &Buffer, s: BytesSchema) -> (r: u8)
    requires
        buffer.kind() == UnitKind::Byte,
        s.fits(buffer.bytes()),
    ensures
        r == s.get(buffer.bytes()),
        r <= s.max(),
{
    get_field8_exec(buffer.byte(s.byte), s.shift, s.width)
}

fn write_bytes(buffer: &mut Buffer, s: BytesSchema, v: u8)
    requires
        old(buffer).kind() == UnitKind::Byte,
        s.fits(old(buffer).bytes()),
    ensures
        final(buffer).kind() == UnitKind::Byte,
        final(buffer).bytes() == s.put(old(buffer).bytes(), v),
        final(buffer).limit() == old(buffer).limit(),
        old(buffer).wf() ==> final(buffer).wf(),
{
    let b = set_field8_exec(buffer.byte(s.byte), s.shift, s.width, v);
    buffer.set_byte(s.byte, b);
}

/// A value that fits the field of word storage reads back as written.
pub proof fn lemma_ump_round_trip(s: UmpSchema, ws: Seq<u32>, v: u32)
    requires
        s.fits(ws),
        v <= s.max(),
    ensures
        s.get(s.put(ws, v)) == v,
        s.put(ws, v).len() == ws.len(),
{
    lemma_field32(ws[s.word as int], s.shift, s.width, v, s.shift, s.width);
}

/// A value that fits the field of byte storage reads back as written.
pub proof fn lemma_bytes_round_trip(s: BytesSchema, bs: Seq<u8>, v: u8)
    requires
        s.fits(bs),
        v <= s.max(),
    ensures
        s.get(s.put(bs, v)) == v,
        s.put(bs, v).len() == bs.len(),
{
    lemma_field8(bs[s.byte as int], s.shift, s.width, v, s.shift, s.width);
}

/// The message-type tag in nibble 0 of the first word; byte streams carry no
/// tag.
#[derive(Clone, Copy, Debug, PartialEq, Eq, Structural)]
pub struct UmpMessageTypeProperty {
    pub message_type: u8,
}

impl UmpMessageTypeProperty {
    /// `Ok` where the tag matches, or where the buffer holds bytes.
    pub fn read(&self, buffer: &Buffer) -> (r: Result<(), Error>)
        requires
            buffer.spec_len() >= 1,
        ensures
            r is Ok <==> (buffer.kind() == UnitKind::Byte || nibble32(buffer.words()[0], 0)
                == self.message_type),
            r is Err ==> r == Err::<(), Error>(Error::InvalidData(InvalidReason::IncorrectMessageType)),
    {
        if buffer.unit_kind() == UnitKind::Word && buffer.word(0).nibble(0) != self.message_type {
            return Err(Error::InvalidData(InvalidReason::IncorrectMessageType));
        }
        Ok(())
    }

    /// Sets the tag in word storage.
    pub fn write(&self, buffer: &mut Buffer)
        requires
            old(buffer).spec_len() >= 1,
            self.message_type < 16,
        ensures
            final(buffer).kind() == old(buffer).kind(),
            final(buffer).limit() == old(buffer).limit(),
            final(buffer).spec_len() == old(buffer).spec_len(),
            final(buffer).bytes() == old(buffer).bytes(),
            old(buffer).wf() ==> final(buffer).wf(),
            final(buffer).kind() == UnitKind::Word ==> nibble32(final(buffer).words()[0], 0)
                == self.message_type,
    {
        if buffer.unit_kind() == UnitKind::Word {
            let mut w = buffer.word(0);
            w.set_nibble(0, self.message_type);
            buffer.set_word(0, w);
        }
    }

    pub fn default() {
    }
}

/// The status of a channel message: nibble 2 of the first word, or the high
/// nibble of the first byte.
#[derive(Clone, Copy, Debug, PartialEq, Eq, Structural)]
pub struct ChannelVoiceStatusProperty {
    pub status: u8,
}

impl ChannelVoiceStatusProperty {
    pub open spec fn stored(buffer: Buffer) -> u8 {
        match buffer.kind() {
            UnitKind::Word => nibble32(buffer.words()[0], 2),
            UnitKind::Byte => nibble8(buffer.bytes()[0], 0),
        }
    }

    /// `Ok` where the stored status is this one.
    pub fn read(&self, buffer: &Buffer) -> (r: Result<(), Error>)
        requires
            buffer.spec_len() >= 1,
        ensures
            r is Ok <==> Self::stored(*buffer) == self.status,
            r is Err ==> r == Err::<(), Error>(Error::InvalidData(InvalidReason::IncorrectStatus)),
    {
        let status = match buffer.unit_kind() {
            UnitKind::Word => buffer.word(0).nibble(2),
            UnitKind::Byte => buffer.byte(0).nibble(0),
        };
        if status == self.status {
            Ok(())
        } else {
            Err(Error::InvalidData(InvalidReason::IncorrectStatus))
        }
    }

    pub fn write(&self, buffer: &mut Buffer)
        requires
            old(buffer).spec_len() >= 1,
            self.status < 16,
        ensures
            final(buffer).kind() == old(buffer).kind(),
            final(buffer).limit() == old(buffer).limit(),
            final(buffer).spec_len() == old(buffer).spec_len(),
            old(buffer).wf() ==> final(buffer).wf(),
            Self::stored(*final(buffer)) == self.status,
    {
        match buffer.unit_kind() {
            UnitKind::Word => {
                let mut w = buffer.word(0);
                w.set_nibble(2, self.status);
                buffer.set_word(0, w);
            },
            UnitKind::Byte => {
                let mut b = buffer.byte(0);
                b.set_nibble(0, self.status);
                buffer.set_byte(0, b);
            },
        }
    }

    pub fn default() {
    }
}

/// A field present in both representations, at `bytes` in byte storage and
/// at `ump` in word storage.
#[derive(Clone, Copy, Debug, PartialEq, Eq, Structural)]
pub struct HybridSchemaProperty {
    pub bytes: BytesSchema,
    pub ump: UmpSchema,
}

impl HybridSchemaProperty {
    pub open spec fn spec_read(&self, buffer: Buffer) -> u32 {
        match buffer.kind() {
            UnitKind::Word => self.ump.get(buffer.words()),
            UnitKind::Byte => self.bytes.get(buffer.bytes()) as u32,
        }
    }

    pub fn read(&self, buffer: &Buffer) -> (r: Result<u32, Error>)
        requires
            schema_fits(*buffer, self.bytes, self.ump),
        ensures
            r == Ok::<u32, Error>(self.spec_read(*buffer)),
    {
        match buffer.unit_kind() {
            UnitKind::Word => Ok(read_ump(buffer, self.ump)),
            UnitKind::Byte => Ok(read_bytes(buffer, self.bytes) as u32),
        }
    }

    /// Stores `v`, which must fit the field of the buffer's representation.
    pub fn write(&self, buffer: &mut Buffer, v: u32) -> (r: Result<(), Error>)
        requires
            schema_fits(*old(buffer), self.bytes, self.ump),
            old(buffer).kind() == UnitKind::Word ==> v <= self.ump.max(),
            old(buffer).kind() == UnitKind::Byte ==> v <= self.bytes.max(),
        ensures
            r is Ok,
            final(buffer).kind() == old(buffer).kind(),
            final(buffer).limit() == old(buffer).limit(),
            old(buffer).wf() ==> final(buffer).wf(),
            final(buffer).kind() == UnitKind::Word ==> final(buffer).words() == self.ump.put(
                old(buffer).words(),
                v,
            ),
            final(buffer).kind() == UnitKind::Byte ==> final(buffer).bytes() == self.bytes.put(
                old(buffer).bytes(),
                v as u8,
            ),
    {
        match buffer.unit_kind() {
            UnitKind::Word => write_ump(buffer, self.ump, v),
            UnitKind::Byte => {
                proof {
                    lemma_field8(0, 0, 1, 0, self.bytes.shift, self.bytes.width);
                }
                write_bytes(buffer, self.bytes, v as u8)
            },
        }
        Ok(())
    }

    pub fn default() -> (r: u32)
        ensures
            r == 0,
    {
        0
    }
}

/// A field of byte storage only.
#[derive(Clone, Copy, Debug, PartialEq, Eq, Structural)]
pub struct BytesSchemaProperty {
    pub bytes: BytesSchema,
}

impl BytesSchemaProperty {
    pub open spec fn spec_read(&self, buffer: Buffer) -> u32 {
        match buffer.kind() {
            UnitKind::Word => 0,
            UnitKind::Byte => self.bytes.get(buffer.bytes()) as u32,
        }
    }

    /// The field, or the default where the buffer holds words.
    pub fn read(&self, buffer: &Buffer) -> (r: Result<u32, Error>)
        requires
            buffer.kind() == UnitKind::Byte ==> self.bytes.fits(buffer.bytes()),
        ensures
            r == Ok::<u32, Error>(self.spec_read(*buffer)),
    {
        match buffer.unit_kind() {
            UnitKind::Word => Ok(0),
            UnitKind::Byte => Ok(read_bytes(buffer, self.bytes) as u32),
        }
    }

    /// Stores `v` in byte storage; word storage is left as it is.
    pub fn write(&self, buffer: &mut Buffer, v: u32) -> (r: Result<(), Error>)
        requires
            old(buffer).kind() == UnitKind::Byte ==> self.bytes.fits(old(buffer).bytes()) && v
                <= self.bytes.max(),
        ensures
            r is Ok,
            final(buffer).kind() == old(buffer).kind(),
            final(buffer).limit() == old(buffer).limit(),
            old(buffer).wf() ==> final(buffer).wf(),
            final(buffer).kind() == UnitKind::Word ==> *final(buffer) == *old(buffer),
            final(buffer).kind() == UnitKind::Byte ==> final(buffer).bytes() == self.bytes.put(
                old(buffer).bytes(),
                v as u8,
            ),
    {
        if buffer.unit_kind() == UnitKind::Byte {
            proof {
                lemma_field8(0, 0, 1, 0, self.bytes.shift, self.bytes.width);
            }
            write_bytes(buffer, self.bytes, v as u8);
        }
        Ok(())
    }

    pub fn default() -> (r: u32)
        ensures
            r == 0,
    {
        0
    }
}

/// A field of word storage only.
#[derive(Clone, Copy, Debug, PartialEq, Eq, Structural)]
pub struct UmpSchemaProperty {
    pub ump: UmpSchema,
}

impl UmpSchemaProperty {
    pub open spec fn spec_read(&self, buffer: Buffer) -> u32 {
        match buffer.kind() {
            UnitKind::Word => self.ump.get(buffer.words()),
            UnitKind::Byte => 0,
        }
    }

    /// The field, or the default where the buffer holds bytes.
    pub fn read(&self, buffer: &Buffer) -> (r: Result<u32, Error>)
        requires
            buffer.kind() == UnitKind::Word ==> self.ump.fits(buffer.words()),
        ensures
            r == Ok::<u32, Error>(self.spec_read(*buffer)),
    {
        match buffer.unit_kind() {
            UnitKind::Word => Ok(read_ump(buffer, self.ump)),
            UnitKind::Byte => Ok(0),
        }
    }

    /// Stores `v` in word storage; byte storage is left as it is.
    pub fn write(&self, buffer: &mut Buffer, v: u32) -> (r: Result<(), Error>)
        requires
            old(buffer).kind() == UnitKind::Word ==> self.ump.fits(old(buffer).words()) && v
                <= self.ump.max(),
        ensures
            r is Ok,
            final(buffer).kind() == old(buffer).kind(),
            final(buffer).limit() == old(buffer).limit(),
            old(buffer).wf() ==> final(buffer).wf(),
            final(buffer).kind() == UnitKind::Byte ==> *final(buffer) == *old(buffer),
            final(buffer).kind() == UnitKind::Word ==> final(buffer).words() == self.ump.put(
                old(buffer).words(),
                v,
            ),
    {
        if buffer.unit_kind() == UnitKind::Word {
            write_ump(buffer, self.ump, v);
        }
        Ok(())
    }

    pub fn default() -> (r: u32)
        ensures
            r == 0,
    {
        0
    }
}

/// The channel: low nibble of the first byte, or nibble 3 of the first word.
pub open spec fn channel_property() -> HybridSchemaProperty {
    HybridSchemaProperty {
        bytes: BytesSchema { byte: 0, shift: 0, width: 4 },
        ump: UmpSchema { word: 0, shift: 16, width: 4 },
    }
}

/// The group: nibble 1 of the first word; byte streams carry none.
pub open spec fn group_property() -> UmpSchemaProperty {
    UmpSchemaProperty { ump: UmpSchema { word: 0, shift: 24, width: 4 } }
}

/// Writing a value that fits a two-representation field and reading it back
/// gives the value, in either representation.
pub proof fn lemma_hybrid_round_trip(p: HybridSchemaProperty, ws: Seq<u32>, bs: Seq<u8>, v: u32)
    requires
        p.ump.fits(ws),
        p.bytes.fits(bs),
        v <= p.ump.max(),
        v <= p.bytes.max(),
    ensures
        p.ump.get(p.ump.put(ws, v)) == v,
        p.bytes.get(p.bytes.put(bs, v as u8)) as u32 == v,
{
    lemma_ump_round_trip(p.ump, ws, v);
    lemma_field8(0, 0, 1, 0, p.bytes.shift, p.bytes.width);
    lemma_bytes_round_trip(p.bytes, bs, v as u8);
}

} // verus!
