use unclek::wire::{i16_bits, i32_bits, i64_bits};

#[test]
fn bit_patterns_of_signed_integers() {
    assert_eq!(i16_bits(0), 0);
    assert_eq!(i16_bits(1), 1);
    assert_eq!(i16_bits(-1), 0xffff);
    assert_eq!(i16_bits(i16::MIN), 0x8000);
    assert_eq!(i16_bits(i16::MAX), 0x7fff);
    assert_eq!(i32_bits(-2), 0xffff_fffe);
    assert_eq!(i32_bits(i32::MIN), 0x8000_0000);
    assert_eq!(i32_bits(i32::MAX), 0x7fff_ffff);
    assert_eq!(i64_bits(-1), u64::MAX);
    assert_eq!(i64_bits(i64::MIN), 0x8000_0000_0000_0000);
    assert_eq!(i64_bits(i64::MAX), 0x7fff_ffff_ffff_ffff);
    assert_eq!(i64_bits(-1234567890123), (-1234567890123i64) as u64);
}

#[test]
fn bit_patterns_agree_with_twos_complement() {
    for v in [-32768i64, -300, -2, -1, 0, 1, 2, 255, 256, 32767] {
        assert_eq!(i16_bits(v as i16), (v as i16) as u16);
        assert_eq!(i32_bits(v as i32 * 65536), (v as i32 * 65536) as u32);
        assert_eq!(i64_bits(v << 40), (v << 40) as u64);
    }
}
