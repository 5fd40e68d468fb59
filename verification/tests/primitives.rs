use u8bits::{get_bit, get_bit_range, set_bit, set_bit_range};

/// The mask of the bits `lsb..=msb`, built bit by bit.
fn mask_by_bits(lsb: u8, msb: u8) -> u8 {
    let mut mask: u8 = 0;
    let mut n: u8 = lsb;
    while n <= msb {
        mask |= 1u8 << n;
        n += 1;
    }
    mask
}

fn written(b: u8, lsb: u8, msb: u8, value: u8) -> u8 {
    let mut byte: u8 = b;
    set_bit_range(&mut byte, lsb, msb, value);
    byte
}

fn flagged(b: u8, pos: u8, value: bool) -> u8 {
    let mut byte: u8 = b;
    set_bit(&mut byte, pos, value);
    byte
}

#[test]
fn set_bit_range_exact_values() {
    assert_eq!(written(0x00, 6, 7, 3), 0xc0);
    assert_eq!(written(0xff, 6, 7, 0), 0x3f);
    assert_eq!(written(0xe0, 0, 1, 2), 0xe2);
    assert_eq!(written(0b1010_1010, 2, 5, 0b0101), 0b1001_0110);
    assert_eq!(written(0x00, 0, 3, 0x1f), 0x0f);
    assert_eq!(written(0x5a, 3, 3, 1), 0x5a);
    assert_eq!(written(0x5a, 2, 2, 1), 0x5e);
}

#[test]
fn get_bit_range_exact_values() {
    assert_eq!(get_bit_range(&0xc0, 6, 7), 3);
    assert_eq!(get_bit_range(&0xe2, 0, 1), 2);
    assert_eq!(get_bit_range(&0b1001_0110, 2, 5), 0b0101);
    assert_eq!(get_bit_range(&0xff, 1, 3), 7);
    assert_eq!(get_bit_range(&0x80, 7, 7), 1);
    assert_eq!(get_bit_range(&0x7f, 7, 7), 0);
}

#[test]
fn range_read_after_write_is_the_value_cut_to_the_width() {
    let mut lsb: u8 = 0;
    while lsb <= 7 {
        let mut msb: u8 = lsb;
        while msb <= 7 {
            let width: u32 = (msb - lsb + 1) as u32;
            let low: u8 = ((1u16 << width) - 1) as u8;
            let mut b: u16 = 0;
            while b < 256 {
                let mut v: u16 = 0;
                while v < 256 {
                    let after: u8 = written(b as u8, lsb, msb, v as u8);
                    assert_eq!(get_bit_range(&after, lsb, msb), (v as u8) & low);
                    v += 1;
                }
                b += 1;
            }
            msb += 1;
        }
        lsb += 1;
    }
}

#[test]
fn range_write_leaves_the_other_bits_unchanged() {
    let mut lsb: u8 = 0;
    while lsb <= 7 {
        let mut msb: u8 = lsb;
        while msb <= 7 {
            let mask: u8 = mask_by_bits(lsb, msb);
            let mut b: u16 = 0;
            while b < 256 {
                let mut v: u16 = 0;
                while v < 256 {
                    let after: u8 = written(b as u8, lsb, msb, v as u8);
                    assert_eq!(after & !mask, (b as u8) & !mask);
                    assert_eq!(after & mask, ((v as u8) << lsb) & mask);
                    v += 1;
                }
                b += 1;
            }
            msb += 1;
        }
        lsb += 1;
    }
}

#[test]
fn range_read_is_the_masked_byte_shifted_down() {
    let mut lsb: u8 = 0;
    while lsb <= 7 {
        let mut msb: u8 = lsb;
        while msb <= 7 {
            let mask: u8 = mask_by_bits(lsb, msb);
            let mut b: u16 = 0;
            while b < 256 {
                assert_eq!(get_bit_range(&(b as u8), lsb, msb), ((b as u8) & mask) >> lsb);
                b += 1;
            }
            msb += 1;
        }
        lsb += 1;
    }
}

#[test]
fn full_range_replaces_and_returns_the_whole_byte() {
    let mut b: u16 = 0;
    while b < 256 {
        let mut v: u16 = 0;
        while v < 256 {
            let after: u8 = written(b as u8, 0, 7, v as u8);
            assert_eq!(after, v as u8);
            assert_eq!(get_bit_range(&after, 0, 7), v as u8);
            v += 1;
        }
        assert_eq!(get_bit_range(&(b as u8), 0, 7), b as u8);
        b += 1;
    }
}

#[test]
fn one_bit_range_is_a_single_bit() {
    let mut n: u8 = 0;
    while n <= 7 {
        let mut b: u16 = 0;
        while b < 256 {
            let byte: u8 = b as u8;
            assert_eq!(get_bit_range(&byte, n, n), (byte >> n) & 1);
            assert_eq!(written(byte, n, n, 1), byte | (1u8 << n));
            assert_eq!(written(byte, n, n, 0), byte & !(1u8 << n));
            assert_eq!(written(byte, n, n, 0xfe), byte & !(1u8 << n));
            assert_eq!(get_bit_range(&written(byte, n, n, 1), n, n), 1);
            assert_eq!(get_bit_range(&written(byte, n, n, 0), n, n), 0);
            b += 1;
        }
        n += 1;
    }
}

#[test]
fn set_bit_exact_values() {
    assert_eq!(flagged(0x00, 4, true), 0xe0);
    assert_eq!(flagged(0xff, 4, false), 0x1f);
    assert_eq!(flagged(0x00, 0, true), 0xfe);
    assert_eq!(flagged(0xff, 0, false), 0x01);
    assert_eq!(flagged(0x00, 6, true), 0x80);
    assert_eq!(flagged(0x00, 7, true), 0x00);
    assert_eq!(flagged(0xff, 7, false), 0xff);
}

#[test]
fn get_bit_exact_values() {
    assert!(get_bit(&0xe0, 4));
    assert!(!get_bit(&0x60, 4));
    assert!(!get_bit(&0x10, 4));
    assert!(get_bit(&0xfe, 0));
    assert!(!get_bit(&0x01, 0));
    assert!(get_bit(&0x80, 6));
    assert!(get_bit(&0x00, 7));
    assert!(get_bit(&0xff, 7));
}

#[test]
fn bit_flag_mask_is_the_complement_of_bit_zero_shifted() {
    let mut pos: u8 = 0;
    while pos <= 7 {
        let mask: u8 = !1u8 << pos;
        let mut b: u16 = 0;
        while b < 256 {
            let byte: u8 = b as u8;
            assert_eq!(flagged(byte, pos, true), byte | mask);
            assert_eq!(flagged(byte, pos, false), byte & !mask);
            assert_eq!(get_bit(&byte, pos), byte & mask == mask);
            b += 1;
        }
        pos += 1;
    }
}

#[test]
fn bit_flag_reads_back_below_the_top_bit() {
    let mut pos: u8 = 0;
    while pos <= 6 {
        let mut b: u16 = 0;
        while b < 256 {
            assert!(get_bit(&flagged(b as u8, pos, true), pos));
            assert!(!get_bit(&flagged(b as u8, pos, false), pos));
            b += 1;
        }
        pos += 1;
    }
    assert!(get_bit(&flagged(0x00, 7, false), 7));
}
