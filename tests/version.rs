use correlation::version::{convert_version, hex_to_dec, version_from_raw};

#[test]
fn one_digit_hex_number_when_converted_to_decimal_works() {
    let dec = hex_to_dec(0x3);
    assert_eq!(dec, 3);
}

#[test]
fn more_digits_hex_number_when_converted_to_decimal_works() {
    let dec = hex_to_dec(0x22);
    assert_eq!(dec, 22);
}

#[test]
fn hex_version_when_converted_to_minor_version_works() {
    let version = 0x0316;

    let (_, minor) = convert_version(version);
    assert_eq!(minor, 16);
}

#[test]
fn hex_version_when_converted_to_major_version_works() {
    let version = 0x0316;

    let (major, _) = convert_version(version);
    assert_eq!(major, 3);
}

#[test]
fn largest_byte_reads_as_one_hundred_sixty_five() {
    assert_eq!(hex_to_dec(0xff), 165);
}

#[test]
fn negative_raw_version_is_zero() {
    assert_eq!(version_from_raw(-5), (0, 0));
    assert_eq!(version_from_raw(0x0308), (3, 8));
    assert_eq!(version_from_raw(0x1_0308), (3, 8));
}
