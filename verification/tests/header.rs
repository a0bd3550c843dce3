use utf8_rfc2279::{get_header, OverflowError, MAX_LENGTH, MAX_VALUE};

#[test]
fn header_works() {
    let tests: [(u32, u8); 7] = [
        (0xa9, 0b11000000),
        (0x2260, 0b11100000),
        (b'a' as u32, 0b00000000),
        (b'\0' as u32, 0b00000000),
        (0x001FCAFE, 0b11110000),
        (0x03FCAFEF, 0b11111000),
        (0x7DEADA55, 0b11111100),
    ];

    for (input, output) in tests {
        assert_eq!(get_header(input).unwrap().1, output)
    }
}

#[test]
fn header_gives_the_length_too() {
    let tests: [(u32, usize); 7] = [
        (0xa9, 2),
        (0x2260, 3),
        (b'a' as u32, 1),
        (b'\0' as u32, 1),
        (0x001FCAFE, 4),
        (0x03FCAFEF, 5),
        (0x7DEADA55, 6),
    ];

    for (input, length) in tests {
        assert_eq!(get_header(input).unwrap().0, length)
    }
}

#[test]
fn first_and_last_value_of_each_range() {
    let tests: [(u32, usize, u8); 12] = [
        (0x0000_0000, 1, 0b0000_0000),
        (0x0000_007F, 1, 0b0000_0000),
        (0x0000_0080, 2, 0b1100_0000),
        (0x0000_07FF, 2, 0b1100_0000),
        (0x0000_0800, 3, 0b1110_0000),
        (0x0000_FFFF, 3, 0b1110_0000),
        (0x0001_0000, 4, 0b1111_0000),
        (0x001F_FFFF, 4, 0b1111_0000),
        (0x0020_0000, 5, 0b1111_1000),
        (0x03FF_FFFF, 5, 0b1111_1000),
        (0x0400_0000, 6, 0b1111_1100),
        (0x7FFF_FFFF, 6, 0b1111_1100),
    ];

    for (input, length, header) in tests {
        assert_eq!(get_header(input), Ok((length, header)), "for {input:#x}");
    }
}

#[test]
fn values_beside_the_range_borders() {
    let tests: [(u32, usize); 10] = [
        (0x0000_0001, 1),
        (0x0000_007E, 1),
        (0x0000_0081, 2),
        (0x0000_07FE, 2),
        (0x0000_0801, 3),
        (0x0000_FFFE, 3),
        (0x0001_0001, 4),
        (0x001F_FFFE, 4),
        (0x0020_0001, 5),
        (0x7FFF_FFFE, 6),
    ];

    for (input, length) in tests {
        assert_eq!(get_header(input).unwrap().0, length, "for {input:#x}");
    }
}

#[test]
fn length_never_shrinks_as_the_value_grows() {
    let mut value: u32 = 0;
    let mut last: usize = 1;
    loop {
        let (length, _) = get_header(value).unwrap();
        assert!(1 <= length && length <= MAX_LENGTH);
        assert!(last <= length, "for {value:#x}");
        last = length;
        if value > MAX_VALUE - 0x1_0001 {
            break;
        }
        value += 0x1_0001;
    }
    assert_eq!(last, 6);
}

#[test]
fn header_has_as_many_leading_ones_as_the_length() {
    let values: [u32; 5] = [0x80, 0x800, 0x1_0000, 0x20_0000, 0x400_0000];
    for value in values {
        let (length, header) = get_header(value).unwrap();
        assert_eq!(header.leading_ones() as usize, length);
        assert_eq!(header.count_ones() as usize, length);
    }
    assert_eq!(get_header(0x7F), Ok((1, 0)));
}

#[test]
fn largest_value_has_six_bytes() {
    assert_eq!(MAX_VALUE, 0x7FFF_FFFF);
    assert_eq!(get_header(0x7FFF_FFFF), Ok((6, 0b1111_1100)));
}

#[test]
fn top_bit_overflows() {
    assert_eq!(get_header(0x8000_0000), Err(OverflowError));
}

#[test]
fn every_value_with_the_top_bit_overflows() {
    let values: [u32; 8] = [
        0x8000_0000,
        0x8000_0001,
        0x8000_007F,
        0x8000_0080,
        0xA9A9_A9A9,
        0xC000_0000,
        0xFFFF_FFFE,
        0xFFFF_FFFF,
    ];
    for value in values {
        assert_eq!(get_header(value), Err(OverflowError), "for {value:#x}");
        assert_eq!(get_header(value & 0x7FFF_FFFF).map(|(length, _)| length <= 6), Ok(true));
    }
}

#[test]
fn overflow_error_is_a_plain_value() {
    let error: OverflowError = get_header(u32::MAX).unwrap_err();
    let copy: OverflowError = error;
    assert_eq!(error, copy);
    assert!(error <= copy);
    assert_eq!(format!("{error:?}"), "OverflowError");
}
