use midi2::buffer::Buffer;
use midi2::error::{BufferOverflow, Error, InvalidReason};
use midi2::sysex8::Sysex8;

fn collect(message: &Sysex8) -> Vec<u8> {
    let mut payload = message.payload();
    let mut out = Vec::new();
    while let Some(b) = payload.next() {
        out.push(b);
    }
    out
}

const TWENTY: [u32; 8] = [
    0x531E_3100,
    0x0102_0304,
    0x0506_0708,
    0x090A_0B0C,
    0x5338_310D,
    0x0E0F_1011,
    0x1213_0000,
    0x0000_0000,
];

#[test]
fn sysex8_new() {
    let message = Sysex8::new(0x3, 0x31);
    assert_eq!(message.data(), &[0x5301_3100, 0x0, 0x0, 0x0]);
    assert_eq!(message.group(), 0x3);
    assert_eq!(message.stream_id(), 0x31);
    assert_eq!(message.payload_size(), 0);
}

#[test]
fn sysex8_set_payload() {
    let mut message = Sysex8::new(0x3, 0x31);
    let data: Vec<u8> = (0..20).collect();
    message.set_payload(&data);
    assert_eq!(message.data(), &TWENTY);
    assert_eq!(collect(&message), data);
}

#[test]
fn sysex8_eight_bit_bytes_round_trip() {
    for len in [0_usize, 1, 12, 13, 14, 26, 27] {
        let data: Vec<u8> = (0..len).map(|i| (i as u8).wrapping_mul(73).wrapping_add(0x80)).collect();
        let mut message = Sysex8::new(0xF, 0xAB);
        message.set_payload(&data);
        let reread = Sysex8::try_from(message.into_buffer()).unwrap();
        assert_eq!(collect(&reread), data);
        assert_eq!(reread.stream_id(), 0xAB);
        assert_eq!(reread.group(), 0xF);
    }
}

#[test]
fn sysex8_try_from_errors() {
    let mut data = TWENTY;
    data[4] = 0x5438_310D;
    assert_eq!(
        Sysex8::try_from(Buffer::from_words(data.to_vec())).err(),
        Some(Error::InvalidData(InvalidReason::InconsistentGroups))
    );
    let mut data = TWENTY;
    data[4] = 0x5338_320D;
    assert_eq!(
        Sysex8::try_from(Buffer::from_words(data.to_vec())).err(),
        Some(Error::InvalidData(InvalidReason::InconsistentStreams))
    );
    let mut data = TWENTY;
    data[4] = 0x5308_310D;
    assert_eq!(
        Sysex8::try_from(Buffer::from_words(data.to_vec())).err(),
        Some(Error::InvalidData(InvalidReason::ExpectedEnd))
    );
    let mut data = TWENTY;
    data[4] = 0x533F_310D;
    assert_eq!(
        Sysex8::try_from(Buffer::from_words(data.to_vec())).err(),
        Some(Error::InvalidData(InvalidReason::InvalidPacketSize))
    );
    assert_eq!(
        Sysex8::try_from(Buffer::from_words(vec![0x5300_3100, 0x0, 0x0, 0x0])).err(),
        Some(Error::InvalidData(InvalidReason::InvalidPacketSize))
    );
    assert_eq!(
        Sysex8::try_from(Buffer::from_words(vec![0x3301_3100, 0x0, 0x0, 0x0])).err(),
        Some(Error::InvalidData(InvalidReason::IncorrectMessageType))
    );
    assert_eq!(
        Sysex8::try_from(Buffer::from_words(vec![0x5301_3100, 0x0])).err(),
        Some(Error::BufferOverflow)
    );
}

#[test]
fn sysex8_nth() {
    let message = Sysex8::try_from(Buffer::from_words(TWENTY.to_vec())).unwrap();
    let mut payload = message.payload();
    assert_eq!(payload.len(), 20);
    assert_eq!(payload.nth(0), Some(0x0));
    assert_eq!(payload.nth(12), Some(0x0D));
    assert_eq!(payload.len(), 6);
    assert_eq!(payload.nth(5), Some(0x13));
    assert_eq!(payload.nth(0), None);
}

#[test]
fn sysex8_try_set_payload_to_fixed_storage() {
    let mut message = Sysex8::try_new(Buffer::fixed_words(8), 0x3, 0x31).unwrap();
    let data: Vec<u8> = (0..20).collect();
    assert_eq!(message.try_set_payload(&data), Ok(()));
    assert_eq!(message.data(), &TWENTY);

    let mut message = Sysex8::try_new(Buffer::fixed_words(8), 0x3, 0x31).unwrap();
    let data: Vec<u8> = (0..40).collect();
    assert_eq!(message.try_set_payload(&data), Err(BufferOverflow));
    assert_eq!(collect(&message), (0..26).collect::<Vec<u8>>());
    assert!(Sysex8::try_from(message.into_buffer()).is_ok());

    assert!(Sysex8::try_new(Buffer::fixed_words(3), 0x0, 0x0).is_err());
}

#[test]
fn sysex8_set_group_and_stream_id() {
    let mut message = Sysex8::try_from(Buffer::from_words(TWENTY.to_vec())).unwrap();
    message.set_group(0x9);
    message.set_stream_id(0x42);
    assert_eq!(
        message.data(),
        &[
            0x591E_4200,
            0x0102_0304,
            0x0506_0708,
            0x090A_0B0C,
            0x5938_420D,
            0x0E0F_1011,
            0x1213_0000,
            0x0000_0000,
        ]
    );
    assert_eq!(collect(&message), (0..20).collect::<Vec<u8>>());
}
