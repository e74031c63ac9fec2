use midi2::buffer::{Buffer, UnitSlice};
use midi2::encode_7bit::{from_u7s, to_u7s};
use midi2::error::{Error, InvalidReason};
use midi2::properties::{
    BytesSchema, BytesSchemaProperty, ChannelVoiceStatusProperty, HybridSchemaProperty,
    UmpMessageTypeProperty, UmpSchema, UmpSchemaProperty,
};
use midi2::sysex7::Sysex7;

fn collect(message: &Sysex7) -> Vec<u8> {
    let mut payload = message.payload();
    let mut out = Vec::new();
    while let Some(b) = payload.next() {
        out.push(b);
    }
    out
}

#[test]
fn field_round_trip_on_both_representations() {
    let channel = HybridSchemaProperty {
        bytes: BytesSchema { byte: 0, shift: 0, width: 4 },
        ump: UmpSchema { word: 0, shift: 16, width: 4 },
    };
    let mut w = Buffer::from_words(vec![0xFFFF_FFFF, 0x0]);
    channel.write(&mut w, 0x5).unwrap();
    assert_eq!(channel.read(&w), Ok(0x5));
    assert_eq!(w.specialise_u32(), Some(&[0xFFF5_FFFF_u32, 0x0][..]));
    let mut b = Buffer::from_bytes(vec![0x90, 0x40]);
    channel.write(&mut b, 0xC).unwrap();
    assert_eq!(channel.read(&b), Ok(0xC));
    assert_eq!(b.specialise_u8(), Some(&[0x9C_u8, 0x40][..]));

    let data = UmpSchemaProperty { ump: UmpSchema { word: 1, shift: 0, width: 32 } };
    let mut w = Buffer::from_words(vec![0x0, 0x0]);
    data.write(&mut w, 0xC0B8_3064).unwrap();
    assert_eq!(data.read(&w), Ok(0xC0B8_3064));
}

#[test]
fn representation_specific_fields_read_the_default_elsewhere() {
    let group = UmpSchemaProperty { ump: UmpSchema { word: 0, shift: 24, width: 4 } };
    let mut b = Buffer::from_bytes(vec![0xF0, 0xF7]);
    group.write(&mut b, 0x3).unwrap();
    assert_eq!(group.read(&b), Ok(0));
    assert_eq!(b.specialise_u8(), Some(&[0xF0_u8, 0xF7][..]));

    let velocity = BytesSchemaProperty { bytes: BytesSchema { byte: 1, shift: 0, width: 7 } };
    let mut w = Buffer::from_words(vec![0x2093_4064]);
    velocity.write(&mut w, 0x11).unwrap();
    assert_eq!(velocity.read(&w), Ok(0));
    assert_eq!(w.specialise_u32(), Some(&[0x2093_4064_u32][..]));
}

#[test]
fn header_properties() {
    let ty = UmpMessageTypeProperty { message_type: 0x2 };
    let status = ChannelVoiceStatusProperty { status: 0x9 };
    let mut w = Buffer::from_words(vec![0x0]);
    assert_eq!(ty.read(&w), Err(Error::InvalidData(InvalidReason::IncorrectMessageType)));
    assert_eq!(status.read(&w), Err(Error::InvalidData(InvalidReason::IncorrectStatus)));
    ty.write(&mut w);
    status.write(&mut w);
    assert_eq!(ty.read(&w), Ok(()));
    assert_eq!(status.read(&w), Ok(()));
    assert_eq!(w.specialise_u32(), Some(&[0x2090_0000_u32][..]));

    let mut b = Buffer::from_bytes(vec![0x80, 0x40, 0x10]);
    assert_eq!(ty.read(&b), Ok(()));
    status.write(&mut b);
    assert_eq!(status.read(&b), Ok(()));
    assert_eq!(b.specialise_u8(), Some(&[0x90_u8, 0x40, 0x10][..]));
}

#[test]
fn pack_unpack_inverse() {
    assert_eq!(from_u7s(&[0x7D, 0x6C]), 0x367D);
    assert_eq!(to_u7s(0x367D, 2), vec![0x7D, 0x6C]);
    assert_eq!(from_u7s(&[0x01, 0x02, 0x03]), 0x01 | (0x02 << 7) | (0x03 << 14));
    let values = [0x7F_u8, 0x00, 0x55, 0x2A];
    for n in 2..=4 {
        assert_eq!(to_u7s(from_u7s(&values[..n]), n), values[..n].to_vec());
    }
    // the eighth bit of a value is ignored; bits above 7·N are dropped
    assert_eq!(from_u7s(&[0xFF, 0x00]), 0x7F);
    assert_eq!(to_u7s(0xFFFF_FFFF, 2), vec![0x7F, 0x7F]);
}

#[test]
fn segmentation_round_trip() {
    for len in [0_u8, 1, 5, 6, 7, 12, 13] {
        let data: Vec<u8> = (0..len).map(|i| i.wrapping_mul(37) % 128).collect();
        let mut message = Sysex7::new_words();
        message.set_payload(&data);
        let reread = Sysex7::try_from(message.into_buffer()).unwrap();
        assert_eq!(collect(&reread), data);

        let mut message = Sysex7::new_bytes();
        message.set_payload(&data);
        let reread = Sysex7::try_from(message.into_buffer()).unwrap();
        assert_eq!(collect(&reread), data);
    }
}

#[test]
fn status_grammar_rejection() {
    let two_starts = [0x3016_0001, 0x0, 0x3016_0001, 0x0, 0x3031_0000, 0x0];
    assert!(matches!(
        Sysex7::try_from(Buffer::from_words(two_starts.to_vec())).err(),
        Some(Error::InvalidData(_))
    ));
    let continue_after_complete = [0x3002_0001, 0x0, 0x3021_0000, 0x0];
    assert!(matches!(
        Sysex7::try_from(Buffer::from_words(continue_after_complete.to_vec())).err(),
        Some(Error::InvalidData(_))
    ));
    let lone_start = [0x3016_0001, 0x0];
    assert!(matches!(
        Sysex7::try_from(Buffer::from_words(lone_start.to_vec())).err(),
        Some(Error::InvalidData(_))
    ));
}

#[test]
fn group_consistency_rejection() {
    let data = [0x3A16_0001, 0x0, 0x3B26_0001, 0x0, 0x3A31_0000, 0x0];
    assert_eq!(
        Sysex7::try_from(Buffer::from_words(data.to_vec())).err(),
        Some(Error::InvalidData(InvalidReason::InconsistentGroups))
    );
}

#[test]
fn scenario_thirty_bytes_in_group_a() {
    let mut message = Sysex7::new_words();
    message.set_group(0xA);
    let data: Vec<u8> = (0..30).collect();
    message.set_payload(&data);
    match message.data() {
        UnitSlice::Words(ws) => {
            assert_eq!(ws.len(), 10);
            let headers: Vec<u32> = ws.chunks(2).map(|p| p[0] >> 16).collect();
            assert_eq!(headers, vec![0x3A16, 0x3A26, 0x3A26, 0x3A26, 0x3A36]);
        }
        UnitSlice::Bytes(_) => panic!("word storage expected"),
    }
    assert_eq!(collect(&message), data);
}

#[test]
fn scenario_empty_byte_payload() {
    let mut message = Sysex7::new_bytes();
    message.set_payload(&[]);
    assert_eq!(message.data(), UnitSlice::Bytes(&[0xF0, 0xF7]));
}

#[test]
fn random_access_matches_sequential_reading() {
    let data: Vec<u8> = (0..40).map(|i| (i * 3) % 128).collect();
    let mut message = Sysex7::new_words();
    message.set_payload(&data);
    for k in 0..data.len() {
        let mut skipping = message.payload();
        let mut sequential = message.payload();
        let mut last = None;
        for _ in 0..=k {
            last = sequential.next();
        }
        assert_eq!(skipping.nth(k), last);
        assert_eq!(skipping.len(), sequential.len());
    }
    let mut past = message.payload();
    assert_eq!(past.nth(data.len()), None);
    assert_eq!(past.next(), None);
}
