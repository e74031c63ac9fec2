use midi2::buffer::{Buffer, UnitSlice};
use midi2::error::{BufferOverflow, Error, InvalidReason};
use midi2::sysex7::Sysex7;

fn words(data: &[u32]) -> Buffer {
    Buffer::from_words(data.to_vec())
}

fn bytes(data: &[u8]) -> Buffer {
    Buffer::from_bytes(data.to_vec())
}

fn collect(message: &Sysex7) -> Vec<u8> {
    let mut payload = message.payload();
    let mut out = Vec::new();
    while let Some(b) = payload.next() {
        out.push(b);
    }
    out
}

fn range(n: u8) -> Vec<u8> {
    (0..n).collect()
}

const UMP_MESSAGE: [u32; 6] = [
    0x3416_0001,
    0x0203_0405,
    0x3426_0607,
    0x0809_0A0B,
    0x3433_0C0D,
    0x0E00_0000,
];

const UMP_PAYLOAD_30: [u32; 10] = [
    0x3016_0001,
    0x0203_0405,
    0x3026_0607,
    0x0809_0A0B,
    0x3026_0C0D,
    0x0E0F_1011,
    0x3026_1213,
    0x1415_1617,
    0x3036_1819,
    0x1A1B_1C1D,
];

const UMP_PAYLOAD_50: [u32; 18] = [
    0x3016_0001,
    0x0203_0405,
    0x3026_0607,
    0x0809_0A0B,
    0x3026_0C0D,
    0x0E0F_1011,
    0x3026_1213,
    0x1415_1617,
    0x3026_1819,
    0x1A1B_1C1D,
    0x3026_1E1F,
    0x2021_2223,
    0x3026_2425,
    0x2627_2829,
    0x3026_2A2B,
    0x2C2D_2E2F,
    0x3032_3031,
    0x0000_0000,
];

fn framed(payload: &[u8]) -> Vec<u8> {
    let mut v = vec![0xF0];
    v.extend_from_slice(payload);
    v.push(0xF7);
    v
}

#[test]
fn new_bytes() {
    let message = Sysex7::new_bytes();
    assert_eq!(message.into_buffer().specialise_u8(), Some(&[0xF0_u8, 0xF7][..]));
}

#[test]
fn data_bytes() {
    let message = Sysex7::new_bytes();
    assert_eq!(message.data(), UnitSlice::Bytes(&[0xF0, 0xF7]));
}

#[test]
fn try_from_bytes() {
    let message = Sysex7::try_from(bytes(&[0xF0, 0x0, 0x1, 0x2, 0xF7])).unwrap();
    assert_eq!(message.into_buffer().specialise_u8(), Some(&[0xF0_u8, 0x0, 0x1, 0x2, 0xF7][..]));
}

#[test]
fn try_from_oversized_bytes() {
    let message = Sysex7::try_from(bytes(&[0xF0, 0x0, 0x1, 0x2, 0xF7, 0x0])).unwrap();
    assert_eq!(
        message.into_buffer().specialise_u8(),
        Some(&[0xF0_u8, 0x0, 0x1, 0x2, 0xF7, 0x0][..])
    );
}

#[test]
fn data_oversized_bytes() {
    let message = Sysex7::try_from(bytes(&[0xF0, 0x0, 0x1, 0x2, 0xF7, 0x0])).unwrap();
    assert_eq!(message.data(), UnitSlice::Bytes(&[0xF0, 0x0, 0x1, 0x2, 0xF7]));
}

#[test]
fn try_from_bytes_with_no_end_byte() {
    assert_eq!(
        Sysex7::try_from(bytes(&[0xF0, 0x0, 0x1, 0x2])).err(),
        Some(Error::InvalidData(InvalidReason::NoEndByte))
    );
}

#[test]
fn try_from_bytes_with_no_begin_byte() {
    assert_eq!(
        Sysex7::try_from(bytes(&[0x0, 0x1, 0x2, 0xF7])).err(),
        Some(Error::InvalidData(InvalidReason::NoBeginByte))
    );
}

#[test]
fn new_ump() {
    let message = Sysex7::new_words();
    assert_eq!(message.into_buffer().specialise_u32(), Some(&[0x3000_0000_u32, 0x0000_0000][..]));
}

#[test]
fn data_ump() {
    let message = Sysex7::new_words();
    assert_eq!(message.data(), UnitSlice::Words(&[0x3000_0000, 0x0000_0000]));
}

#[test]
fn try_from_ump() {
    let message = Sysex7::try_from(words(&UMP_MESSAGE)).unwrap();
    assert_eq!(message.into_buffer().specialise_u32(), Some(&UMP_MESSAGE[..]));
}

#[test]
fn set_group_ump() {
    let mut message = Sysex7::try_from(words(&UMP_MESSAGE)).unwrap();
    message.set_group(0x5);
    assert_eq!(
        message.data(),
        UnitSlice::Words(&[
            0x3516_0001,
            0x0203_0405,
            0x3526_0607,
            0x0809_0A0B,
            0x3533_0C0D,
            0x0E00_0000,
        ])
    );
}

#[test]
fn try_from_oversized_ump() {
    let mut data = UMP_MESSAGE.to_vec();
    data.extend_from_slice(&[0x0000_0000, 0x0000_0000]);
    let message = Sysex7::try_from(words(&data)).unwrap();
    assert_eq!(message.into_buffer().specialise_u32(), Some(&data[..]));
}

#[test]
fn data_oversized_ump() {
    let mut data = UMP_MESSAGE.to_vec();
    data.extend_from_slice(&[0x0000_0000, 0x0000_0000]);
    let message = Sysex7::try_from(words(&data)).unwrap();
    assert_eq!(message.data(), UnitSlice::Words(&UMP_MESSAGE));
}

#[test]
fn data_odd_sized_buffer_ump() {
    let mut data = UMP_MESSAGE.to_vec();
    data.push(0x0000_0000);
    let message = Sysex7::try_from(words(&data)).unwrap();
    assert_eq!(message.data(), UnitSlice::Words(&UMP_MESSAGE));
}

#[test]
fn try_from_ump_inconsistent_groups() {
    let mut data = UMP_MESSAGE;
    data[2] = 0x3326_0607;
    assert_eq!(
        Sysex7::try_from(words(&data)).err(),
        Some(Error::InvalidData(InvalidReason::InconsistentGroups))
    );
}

#[test]
fn try_from_ump_incorrect_end_status() {
    let mut data = UMP_MESSAGE;
    data[4] = 0x3403_0C0D;
    assert_eq!(
        Sysex7::try_from(words(&data)).err(),
        Some(Error::InvalidData(InvalidReason::ExpectedEnd))
    );
}

#[test]
fn try_from_ump_incorrect_complete_status() {
    assert_eq!(
        Sysex7::try_from(words(&[0x3416_0001, 0x0203_0405])).err(),
        Some(Error::InvalidData(InvalidReason::ExpectedComplete))
    );
}

#[test]
fn try_from_ump_incorrect_begin_status() {
    let mut data = UMP_MESSAGE;
    data[0] = 0x3406_0001;
    assert_eq!(
        Sysex7::try_from(words(&data)).err(),
        Some(Error::InvalidData(InvalidReason::ExpectedBegin))
    );
}

#[test]
fn try_from_ump_incorrect_continue_status() {
    let mut data = UMP_MESSAGE;
    data[2] = 0x3456_0607;
    assert_eq!(
        Sysex7::try_from(words(&data)).err(),
        Some(Error::InvalidData(InvalidReason::ExpectedContinue))
    );
}

#[test]
fn try_from_ump_invalid_packet_sizes() {
    let mut data = UMP_MESSAGE;
    data[2] = 0x3427_0607;
    assert_eq!(
        Sysex7::try_from(words(&data)).err(),
        Some(Error::InvalidData(InvalidReason::InvalidPacketSize))
    );
}

#[test]
fn try_from_ump_wrong_type_or_too_short() {
    assert_eq!(
        Sysex7::try_from(words(&[0x2416_0001, 0x0])).err(),
        Some(Error::InvalidData(InvalidReason::IncorrectMessageType))
    );
    assert_eq!(Sysex7::try_from(words(&[0x3000_0000])).err(), Some(Error::BufferOverflow));
    assert_eq!(Sysex7::try_from(bytes(&[0xF0])).err(), Some(Error::BufferOverflow));
}

#[test]
fn set_payload_bytes() {
    let mut message = Sysex7::new_bytes();
    message.set_payload(&range(20));
    assert_eq!(message.into_buffer().specialise_u8(), Some(&framed(&range(20))[..]));
}

#[test]
fn set_payload_ump() {
    let mut message = Sysex7::new_words();
    message.set_payload(&range(30));
    assert_eq!(message.into_buffer().specialise_u32(), Some(&UMP_PAYLOAD_30[..]));
}

#[test]
fn set_rubbish_payload_ump() {
    let mut message = Sysex7::new_words();
    message.set_payload(&range(50));
    assert_eq!(message.into_buffer().specialise_u32(), Some(&UMP_PAYLOAD_50[..]));
}

#[test]
fn try_set_rubbish_payload_to_fixed_size_buffer_ump() {
    let mut message = Sysex7::try_new(Buffer::fixed_words(18)).unwrap();
    message.try_set_payload(&range(50)).expect("Shouldn't fail");
    assert_eq!(message.into_buffer().specialise_u32(), Some(&UMP_PAYLOAD_50[..]));
}

#[test]
fn reset_smaller_payload_bytes() {
    let mut message = Sysex7::new_bytes();
    message.set_payload(&range(20));
    message.set_payload(&range(10));
    assert_eq!(message.into_buffer().specialise_u8(), Some(&framed(&range(10))[..]));
}

#[test]
fn reset_larger_payload_bytes() {
    let mut message = Sysex7::new_bytes();
    message.set_payload(&range(20));
    message.set_payload(&range(30));
    assert_eq!(message.into_buffer().specialise_u8(), Some(&framed(&range(30))[..]));
}

#[test]
fn set_rubbish_payload_bytes() {
    let mut message = Sysex7::new_bytes();
    message.set_payload(&range(50));
    assert_eq!(message.into_buffer().specialise_u8(), Some(&framed(&range(50))[..]));
}

#[test]
fn try_set_rubbish_payload_to_fixed_size_buffer() {
    let mut message = Sysex7::try_new(Buffer::fixed_bytes(52)).unwrap();
    message.try_set_payload(&range(50)).expect("Shouldn't fail");
    assert_eq!(message.into_buffer().specialise_u8(), Some(&framed(&range(50))[..]));
}

#[test]
fn payload_bytes() {
    let message = Sysex7::try_from(bytes(&framed(&range(30)))).unwrap();
    assert_eq!(range(30), collect(&message));
}

#[test]
fn payload_bytes_nth() {
    let message = Sysex7::try_from(bytes(&framed(&range(30)))).unwrap();
    let mut payload = message.payload();
    assert_eq!(payload.nth(0), Some(0x0));
    assert_eq!(payload.nth(4), Some(0x5));
    assert_eq!(payload.nth(12), Some(0x12));
    assert_eq!(payload.nth(10), Some(0x1D));
    assert_eq!(payload.nth(0), None);
}

#[test]
fn payload_bytes_len() {
    let message = Sysex7::try_from(bytes(&framed(&range(30)))).unwrap();
    assert_eq!(message.payload().len(), 30);
}

#[test]
fn payload_ump() {
    let message = Sysex7::try_from(words(&UMP_PAYLOAD_30)).unwrap();
    assert_eq!(collect(&message), range(30));
}

#[test]
fn payload_ump_nth() {
    let message = Sysex7::try_from(words(&UMP_PAYLOAD_30)).unwrap();
    let mut payload = message.payload();
    assert_eq!(payload.nth(0), Some(0x0));
    assert_eq!(payload.nth(4), Some(0x5));
    assert_eq!(payload.nth(12), Some(0x12));
    assert_eq!(payload.nth(10), Some(0x1D));
    assert_eq!(payload.nth(0), None);
}

#[test]
fn payload_ump_len_and_size() {
    let message = Sysex7::try_from(words(&UMP_MESSAGE)).unwrap();
    assert_eq!(message.payload().len(), 15);
    assert_eq!(message.payload_size(), 15);
    assert_eq!(message.size(), 6);
    assert_eq!(message.group(), 0x4);
}

#[test]
fn payload_skips_empty_packets() {
    // a complete packet without payload yields nothing
    let message = Sysex7::new_words();
    assert_eq!(message.payload().len(), 0);
    assert_eq!(message.payload().next(), None);
    // an empty interior packet is passed over
    let message = Sysex7::try_from(words(&[
        0x3012_0A0B,
        0x0,
        0x3020_0000,
        0x0,
        0x3031_0C00,
        0x0,
    ]))
    .unwrap();
    assert_eq!(collect(&message), vec![0x0A, 0x0B, 0x0C]);
    let mut payload = message.payload();
    assert_eq!(payload.nth(2), Some(0x0C));
    assert_eq!(payload.next(), None);
}

#[test]
fn try_resize_past_capacity_keeps_a_valid_message() {
    let mut message = Sysex7::try_new(Buffer::fixed_words(4)).unwrap();
    assert_eq!(message.try_resize(13), Err(BufferOverflow));
    assert_eq!(message.payload_size(), 12);
    let data = message.data();
    assert_eq!(data, UnitSlice::Words(&[0x3016_0000, 0x0, 0x3036_0000, 0x0]));
    let buffer = message.into_buffer();
    assert!(Sysex7::try_from(buffer).is_ok());
}

#[test]
fn try_set_payload_past_capacity_keeps_what_fits() {
    let mut message = Sysex7::try_new(Buffer::fixed_words(4)).unwrap();
    assert_eq!(message.try_set_payload(&range(20)), Err(BufferOverflow));
    assert_eq!(collect(&message), range(12));

    let mut message = Sysex7::try_new(Buffer::fixed_bytes(6)).unwrap();
    assert_eq!(message.try_set_payload(&range(20)), Err(BufferOverflow));
    assert_eq!(collect(&message), range(4));
    assert_eq!(message.data(), UnitSlice::Bytes(&[0xF0, 0, 1, 2, 3, 0xF7]));
}

#[test]
fn try_new_needs_room_for_an_empty_message() {
    assert!(Sysex7::try_new(Buffer::fixed_words(1)).is_err());
    assert!(Sysex7::try_new(Buffer::fixed_bytes(1)).is_err());
    assert!(Sysex7::try_new(Buffer::fixed_words(2)).is_ok());
}

#[test]
fn shrinking_clears_the_rest_of_the_last_packet() {
    let mut message = Sysex7::new_words();
    message.set_group(0x7);
    message.set_payload(&range(12));
    message.resize(7);
    assert_eq!(
        message.data(),
        UnitSlice::Words(&[0x3716_0001, 0x0203_0405, 0x3731_0600, 0x0])
    );
}

#[test]
fn resize_bytes_keeps_the_payload_prefix() {
    let mut message = Sysex7::new_bytes();
    message.set_payload(&[1, 2, 3]);
    message.resize(5);
    assert_eq!(collect(&message), vec![1, 2, 3, 0, 0]);
    message.resize(2);
    assert_eq!(collect(&message), vec![1, 2]);
}
