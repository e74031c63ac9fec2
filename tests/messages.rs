use midi2::error::{Error, InvalidReason};
use midi2::midi1_channel_voice::control_change::ControlChangeMessage;
use midi2::midi1_channel_voice::key_pressure::KeyPressureMessage as Midi1KeyPressureMessage;
use midi2::midi2_channel_voice::key_pressure::KeyPressureMessage as Midi2KeyPressureMessage;
use midi2::midi2_channel_voice::per_note_pitch_bend::PerNotePitchBendMessage;
use midi2::system_common::song_position_pointer::SongPositionPointerMessage;

#[test]
fn control_change_builder() {
    let mut buffer = [0x9C3E_1A77_u32];
    let message = ControlChangeMessage::builder(&mut buffer)
        .group(0xA)
        .channel(0x7)
        .control(0x36)
        .control_data(0x37)
        .build();
    assert_eq!(message.unwrap().data(), &[0x2AB7_3637]);
}

#[test]
fn control_change_group() {
    assert_eq!(ControlChangeMessage::from_data(&[0x2AB7_3637]).unwrap().group(), 0xA);
}

#[test]
fn control_change_channel() {
    assert_eq!(ControlChangeMessage::from_data(&[0x2AB7_3637]).unwrap().channel(), 0x7);
}

#[test]
fn control() {
    assert_eq!(ControlChangeMessage::from_data(&[0x2AB7_3637]).unwrap().control(), 0x36);
}

#[test]
fn control_data() {
    assert_eq!(ControlChangeMessage::from_data(&[0x2AB7_3637]).unwrap().control_data(), 0x37);
}

#[test]
fn control_change_rejects_other_messages() {
    assert_eq!(
        ControlChangeMessage::from_data(&[0x2AA7_3637]).err(),
        Some(Error::InvalidData(InvalidReason::IncorrectStatus))
    );
    let mut empty: [u32; 0] = [];
    assert_eq!(
        ControlChangeMessage::builder(&mut empty).group(0x1).build().err(),
        Some(Error::BufferOverflow)
    );
}

#[test]
fn key_pressure_builder() {
    let mut buffer = [0x0F0F_0F0F_u32];
    let message = Midi1KeyPressureMessage::builder(&mut buffer)
        .group(0xA)
        .channel(0x3)
        .note(0x7F)
        .pressure(0x5C)
        .build();
    assert_eq!(message.unwrap().data(), &[0x2AA3_7F5C]);

    let mut buffer = [0xDEAD_BEEF_u32, 0x1234_5678];
    let message = Midi2KeyPressureMessage::builder(&mut buffer)
        .group(0xB)
        .channel(0xC)
        .note(0x59)
        .key_pressure_data(0xC0B83064)
        .build();
    assert_eq!(message.unwrap().data(), &[0x4BAC_5900, 0xC0B83064]);
}

#[test]
fn key_pressure_group() {
    assert_eq!(Midi1KeyPressureMessage::from_data(&[0x2AA3_7F5C]).unwrap().group(), 0xA);
    assert_eq!(
        Midi2KeyPressureMessage::from_data(&[0x4BAC_5900, 0xC0B83064]).unwrap().group(),
        0xB
    );
}

#[test]
fn key_pressure_channel() {
    assert_eq!(Midi1KeyPressureMessage::from_data(&[0x2AA3_7F5C]).unwrap().channel(), 0x3);
    assert_eq!(
        Midi2KeyPressureMessage::from_data(&[0x4BAC_5900, 0xC0B83064]).unwrap().channel(),
        0xC
    );
}

#[test]
fn key_pressure_note() {
    assert_eq!(Midi1KeyPressureMessage::from_data(&[0x2AA3_7F5C]).unwrap().note(), 0x7F);
    assert_eq!(
        Midi2KeyPressureMessage::from_data(&[0x4BAC_5900, 0xC0B83064]).unwrap().note(),
        0x59
    );
}

#[test]
fn pressure() {
    assert_eq!(Midi1KeyPressureMessage::from_data(&[0x2AA3_7F5C]).unwrap().pressure(), 0x5C);
}

#[test]
fn key_pressure_key_pressure_data() {
    assert_eq!(
        Midi2KeyPressureMessage::from_data(&[0x4BAC_5900, 0xC0B83064])
            .unwrap()
            .key_pressure_data(),
        0xC0B83064,
    );
}

#[test]
fn midi2_key_pressure_needs_two_words() {
    assert_eq!(
        Midi2KeyPressureMessage::from_data(&[0x4BAC_5900]).err(),
        Some(Error::BufferOverflow)
    );
    assert_eq!(
        Midi2KeyPressureMessage::from_data(&[0x4B6C_5900, 0x0]).err(),
        Some(Error::InvalidData(InvalidReason::IncorrectStatus))
    );
    let mut short = [0x0_u32];
    assert_eq!(
        Midi2KeyPressureMessage::builder(&mut short).note(0x1).build().err(),
        Some(Error::BufferOverflow)
    );
}

#[test]
fn per_note_pitch_bend_builder() {
    let mut buffer = [0x0_u32, 0x0];
    let message = PerNotePitchBendMessage::builder(&mut buffer)
        .group(0x9)
        .channel(0x2)
        .note(0x76)
        .pitch_bend_data(0x2AD74672)
        .build();
    assert_eq!(message.unwrap().data(), &[0x4962_7600, 0x2AD74672]);
}

#[test]
fn per_note_pitch_bend_group() {
    assert_eq!(
        PerNotePitchBendMessage::from_data(&[0x4962_7600, 0x2AD74672]).unwrap().group(),
        0x9
    );
}

#[test]
fn per_note_pitch_bend_channel() {
    assert_eq!(
        PerNotePitchBendMessage::from_data(&[0x4962_7600, 0x2AD74672]).unwrap().channel(),
        0x2
    );
}

#[test]
fn per_note_pitch_bend_note() {
    assert_eq!(
        PerNotePitchBendMessage::from_data(&[0x4962_7600, 0x2AD74672]).unwrap().note(),
        0x76
    );
}

#[test]
fn pitch_bend_data() {
    assert_eq!(
        PerNotePitchBendMessage::from_data(&[0x4962_7600, 0x2AD74672])
            .unwrap()
            .pitch_bend_data(),
        0x2AD74672,
    );
}

#[test]
fn song_position_pointer_builder() {
    let mut buffer = [0x7777_7777_u32];
    let message = SongPositionPointerMessage::builder(&mut buffer)
        .group(0xA)
        .position(0x367D)
        .build();
    assert_eq!(message.unwrap().data(), &[0x1AF2_7D6C]);
}

#[test]
fn song_position_pointer_group() {
    assert_eq!(SongPositionPointerMessage::from_data(&[0x1AF2_7D6C]).unwrap().group(), 0xA);
}

#[test]
fn position() {
    assert_eq!(SongPositionPointerMessage::from_data(&[0x1AF2_7D6C]).unwrap().position(), 0x367D);
}

#[test]
fn song_position_pointer_errors() {
    assert_eq!(SongPositionPointerMessage::from_data(&[]).err(), Some(Error::BufferOverflow));
    assert_eq!(
        SongPositionPointerMessage::from_data(&[0x1AF3_7D6C]).err(),
        Some(Error::InvalidData(InvalidReason::IncorrectStatus))
    );
}

#[test]
fn song_position_round_trip() {
    for v in [0u16, 1, 0x7F, 0x80, 0x367D, 0x3FFF] {
        let mut buffer = [0x0_u32];
        let message = SongPositionPointerMessage::builder(&mut buffer).position(v).build().unwrap();
        assert_eq!(message.position(), v);
    }
}
