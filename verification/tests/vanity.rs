use vanity_cockatrice::vanity::{starts_with, vanity_string};

#[test]
fn vanity_of_known_digests() {
    assert_eq!(&vanity_string(&[0u8; 20]), b"00000000");
    assert_eq!(&vanity_string(&[0xffu8; 20]), b"vvvvvvvv");
    assert_eq!(&vanity_string(&[0x00, 0x44, 0x32, 0x14, 0xc7, 0, 0, 0]), b"01234567");
    assert_eq!(&vanity_string(&[1, 2, 3, 4, 5, 6, 7, 8]), b"04106105");
    // 8, 9, 10, 11 and 28, 29, 30, 31 stand on both sides of the step from digits to letters
    assert_eq!(&vanity_string(&[0x42, 0x54, 0xbe, 0x77, 0xdf, 0, 0, 0]), b"89abstuv");
}

#[test]
fn vanity_reads_the_first_five_bytes_only() {
    let one = vanity_string(&[0x12, 0x34, 0x56, 0x78, 0x9a, 0x00, 0x00, 0x00]);
    let other = vanity_string(&[0x12, 0x34, 0x56, 0x78, 0x9a, 0xff, 0xff, 0xff, 0xff, 0xff, 0xff]);
    assert_eq!(one, other);
    assert_ne!(one, vanity_string(&[0x12, 0x34, 0x56, 0x78, 0x9b, 0x00, 0x00, 0x00]));
}

#[test]
fn vanity_is_the_base_32_writing_of_forty_bits() {
    let alphabet = b"0123456789abcdefghijklmnopqrstuv";
    let mut state: u64 = 0x9e3779b97f4a7c15;
    for _ in 0..20000 {
        state = state.wrapping_mul(6364136223846793005).wrapping_add(1442695040888963407);
        let digest = state.to_be_bytes();
        let top = state >> 24;
        let mut expected = [0u8; 8];
        for i in 0..8 {
            expected[i] = alphabet[((top >> (5 * (7 - i))) & 31) as usize];
        }
        assert_eq!(vanity_string(&digest), expected);
    }
}

#[test]
fn every_symbol_is_in_the_alphabet() {
    for lane in 0..8u32 {
        for value in 0..32u64 {
            let top: u64 = value << (5 * lane);
            let digest = (top << 24).to_be_bytes();
            let out = vanity_string(&digest);
            for (i, b) in out.iter().enumerate() {
                assert!(matches!(*b, b'0'..=b'9' | b'a'..=b'v'));
                if i as u32 != 7 - lane {
                    assert_eq!(*b, b'0');
                }
            }
            let expected = if value < 10 { b'0' + value as u8 } else { b'a' + (value as u8 - 10) };
            assert_eq!(out[(7 - lane) as usize], expected);
        }
    }
}

#[test]
fn starts_with_compares_the_leading_bytes() {
    assert!(starts_with(b"el4621a3", b""));
    assert!(starts_with(b"el4621a3", b"e"));
    assert!(starts_with(b"el4621a3", b"el46"));
    assert!(starts_with(b"el4621a3", b"el4621a3"));
    assert!(!starts_with(b"el4621a3", b"l"));
    assert!(!starts_with(b"el4621a3", b"el47"));
    assert!(!starts_with(b"el4621a3", b"el4621a30"));
    assert!(!starts_with(b"", b"e"));
    assert!(starts_with(b"", b""));
}
