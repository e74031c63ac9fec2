use midi2::error::{Error, InvalidReason};
use midi2::helpers::{
    channel_from_packet, clear_buffer, group_from_packet, note_from_packet,
    sysex_group_consistent_groups, validate_buffer_size, validate_packet,
    validate_sysex_group_statuses, write_channel_to_packet, write_group_to_packet,
    write_note_to_packet, write_op_code_to_packet, write_type_to_packet, StatusCodes,
};

fn sysex_codes() -> StatusCodes {
    StatusCodes { complete: 0, begin: 1, cont: 2, end: 3 }
}

#[test]
fn test_valid_buffer_size() {
    assert_eq!(validate_buffer_size(&[], 2), Err(Error::BufferOverflow));
    assert_eq!(validate_buffer_size(&[0x0], 2), Err(Error::BufferOverflow));
    assert_eq!(validate_buffer_size(&[0x0, 0x0], 2), Ok(()));
}

#[test]
fn test_note_from_packet() {
    assert_eq!(note_from_packet(&[0x0000_3200]), 0x32);
}

#[test]
fn test_write_note_to_packet() {
    let mut p = [0x0_u32];
    write_note_to_packet(0x73, &mut p);
    assert_eq!(p, [0x0000_7300]);
}

#[test]
fn test_clear_buffer() {
    let mut p = [0x1234_5678_u32, 0x8765_4321];
    clear_buffer(&mut p);
    assert_eq!(p, [0x0, 0x0]);
}

#[test]
fn header_writes_touch_their_field_only() {
    let mut p = [0xFFFF_FFFF_u32, 0x1234_5678];
    write_type_to_packet(0x2, &mut p);
    assert_eq!(p, [0x2FFF_FFFF, 0x1234_5678]);
    write_group_to_packet(0x0, &mut p);
    assert_eq!(p, [0x20FF_FFFF, 0x1234_5678]);
    write_op_code_to_packet(0xB, &mut p);
    assert_eq!(p, [0x20BF_FFFF, 0x1234_5678]);
    write_channel_to_packet(0x7, &mut p);
    assert_eq!(p, [0x20B7_FFFF, 0x1234_5678]);
    assert_eq!(group_from_packet(&p), 0x0);
    assert_eq!(channel_from_packet(&p), 0x7);
}

#[test]
fn validate_packet_checks_type_and_op_code() {
    assert_eq!(validate_packet(&[0x2AB7_3637], 0x2, 0xB), Ok(()));
    assert_eq!(
        validate_packet(&[0x2AA7_3637], 0x2, 0xB),
        Err(Error::InvalidData(InvalidReason::IncorrectStatus))
    );
    assert_eq!(
        validate_packet(&[], 0x2, 0xB),
        Err(Error::InvalidData(InvalidReason::IncorrectStatus))
    );
}

#[test]
fn consistent_groups() {
    assert_eq!(
        sysex_group_consistent_groups(&[0x3416_0001, 0x0, 0x3426_0607, 0x0], 2),
        Ok(())
    );
    assert_eq!(
        sysex_group_consistent_groups(&[0x3416_0001, 0x0, 0x3326_0607, 0x0], 2),
        Err(Error::InvalidData(InvalidReason::InconsistentGroups))
    );
}

#[test]
fn status_grammar() {
    let codes = sysex_codes();
    assert_eq!(validate_sysex_group_statuses(&[0x3000_0000, 0x0], &codes, 2), Ok(()));
    assert_eq!(
        validate_sysex_group_statuses(&[0x3010_0000, 0x0], &codes, 2),
        Err(Error::InvalidData(InvalidReason::ExpectedComplete))
    );
    assert_eq!(
        validate_sysex_group_statuses(&[0x3016_0000, 0x0, 0x3026_0000, 0x0, 0x3033_0000, 0x0], &codes, 2),
        Ok(())
    );
    assert_eq!(
        validate_sysex_group_statuses(&[0x3016_0000, 0x0, 0x3016_0000, 0x0, 0x3033_0000, 0x0], &codes, 2),
        Err(Error::InvalidData(InvalidReason::ExpectedContinue))
    );
    assert_eq!(
        validate_sysex_group_statuses(&[0x3006_0000, 0x0, 0x3023_0000, 0x0], &codes, 2),
        Err(Error::InvalidData(InvalidReason::ExpectedBegin))
    );
    assert_eq!(
        validate_sysex_group_statuses(&[0x3016_0000, 0x0, 0x3026_0000, 0x0], &codes, 2),
        Err(Error::InvalidData(InvalidReason::ExpectedEnd))
    );
}
