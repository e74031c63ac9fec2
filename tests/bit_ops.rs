use midi2::bit_ops::BitOps;

#[test]
fn bit_ops_bit() {
    let p = 0b1000_0010_u8;
    assert!(p.bit(0));
    assert!(!p.bit(1));
    assert!(p.bit(6));
    assert!(!p.bit(7));

    let p = 0b1000_0000_0000_0000_0000_0000_0000_0010_u32;
    assert!(p.bit(0));
    assert!(!p.bit(1));
    assert!(p.bit(30));
    assert!(!p.bit(31));
}

#[test]
fn bit_ops_set_bit() {
    let mut p = 0b1000_0000_u8;
    p.set_bit(0, false);
    assert_eq!(p, 0x0);
    let mut p = 0x0_u8;
    p.set_bit(0, true);
    assert_eq!(p, 0b1000_0000);
    let mut p = 0x0_u8;
    p.set_bit(4, true);
    assert_eq!(p, 0b0000_1000);

    let mut p = 0x0_u32;
    p.set_bit(0, true);
    assert_eq!(p, 0b1000_0000_0000_0000_0000_0000_0000_0000_u32);
    let mut p = 0x0_u32;
    p.set_bit(10, true);
    assert_eq!(p, 0b0000_0000_0010_0000_0000_0000_0000_0000);
}

#[test]
fn bit_ops_nibble() {
    let p = 0xAB_u8;
    assert_eq!(p.nibble(0), 0xA);
    assert_eq!(p.nibble(1), 0xB);

    let p = 0x2468_ACE0_u32;
    assert_eq!(p.nibble(0), 0x2);
    assert_eq!(p.nibble(3), 0x8);
    assert_eq!(p.nibble(5), 0xC);
    assert_eq!(p.nibble(7), 0x0);
}

#[test]
fn bit_ops_set_nibble() {
    let mut p = 0x1_u8;
    p.set_nibble(1, 6);
    assert_eq!(p, 0x6);
    let mut p = 0x0_u8;
    p.set_nibble(0, 0xB);
    assert_eq!(p, 0xB0);
    let mut p = 0x0_u8;
    p.set_nibble(1, 0xB);
    assert_eq!(p, 0x0B);

    let mut p = 0x5A21_C612_u32;
    p.set_nibble(3, 6);
    assert_eq!(p, 0x5A26_C612);
    let mut p = 0x0_u32;
    p.set_nibble(0, 0xB);
    assert_eq!(p, 0xB000_0000);
    let mut p = 0x0_u32;
    p.set_nibble(5, 0xB);
    assert_eq!(p, 0x0000_0B00);
    let mut p = 0x0_u32;
    p.set_nibble(7, 0x4);
    assert_eq!(p, 0x0000_0004);
}

#[test]
fn bit_ops_octet() {
    let p = 0xFC_u8;
    assert_eq!(p.octet(0), 0xFC);

    let p = 0x0123_4567_u32;
    assert_eq!(p.octet(0), 0x01);
    assert_eq!(p.octet(1), 0x23);
    assert_eq!(p.octet(2), 0x45);
    assert_eq!(p.octet(3), 0x67);
}

#[test]
fn bit_ops_set_octet() {
    let mut p = 0x1_u8;
    p.set_octet(0, 0x6);
    assert_eq!(p, 0x6);
    let mut p = 0x0_u8;
    p.set_octet(0, 0xBE);
    assert_eq!(p, 0xBE);

    let mut p = 0x0_u32;
    p.set_octet(0, 0xBE);
    assert_eq!(p, 0xBE00_0000);
    let mut p = 0x0_u32;
    p.set_octet(2, 0xBE);
    assert_eq!(p, 0x0000_BE00);
    let mut p = 0x0_u32;
    p.set_octet(3, 0xBE);
    assert_eq!(p, 0x0000_00BE);
}

#[test]
fn word() {
    let p = 0x0123_4567_u32;
    assert_eq!(p.word(0), 0x0123);
    assert_eq!(p.word(1), 0x4567);
}

#[test]
fn set_word() {
    let mut p = 0x0_u32;
    p.set_word(0, 0x0ABE);
    assert_eq!(p, 0x0ABE_0000);
    let mut p = 0x0_u32;
    p.set_word(1, 0x0ABE);
    assert_eq!(p, 0x0000_0ABE);
}

#[test]
fn set_nibble_keeps_the_other_nibbles() {
    let mut p = 0xFFFF_FFFF_u32;
    p.set_nibble(2, 0x0);
    assert_eq!(p, 0xFF0F_FFFF);
    let mut b = 0xFF_u8;
    b.set_nibble(0, 0x3);
    assert_eq!(b, 0x3F);
}
