use vstd::prelude::*;

verus! {

/// The number that a byte's two hexadecimal digits spell when read as
/// decimal digits (`0x22` reads as 22).
pub open spec fn hex_digits_as_decimal(hex: u8) -> int {
    (hex % 16) as int + 10 * (hex / 16) as int
}

/// Reads a byte's two hexadecimal digits as decimal digits.
pub fn hex_to_dec(hex: u8) -> (r: u8)
    ensures
        r == hex_digits_as_decimal(hex),
{
    let low: u8 = hex % 16;
    let high: u8 = hex / 16;
    assert(high <= 15);
    low + high * 10
}

/// Splits a configuration version such as `0x0316` into `(major, minor)`,
/// each read as decimal digits: `(3, 16)`.
pub fn convert_version(version: u16) -> (r: (u8, u8))
    ensures
        r.0 == hex_digits_as_decimal((version / 256) as u8),
        r.1 == hex_digits_as_decimal((version % 256) as u8),
{
    let minor = hex_to_dec((version % 256) as u8);
    let major = hex_to_dec((version / 256) as u8);
    (major, minor)
}

/// The version pair of a raw version number as the host reports it: a
/// negative number counts as version zero, and only the low 16 bits are read.
pub fn version_from_raw(version: i32) -> (r: (u8, u8))
    ensures
        version < 0 ==> r == (0u8, 0u8),
        version >= 0 ==> r.0 == hex_digits_as_decimal(((version % 65536) / 256) as u8),
        version >= 0 ==> r.1 == hex_digits_as_decimal((version % 256) as u8),
{
    if version < 0 {
        (0, 0)
    } else {
        let v: u16 = (version % 65536) as u16;
        assert(v % 256 == version % 256) by (nonlinear_arith)
            requires v == version % 65536, version >= 0;
        convert_version(v)
    }
}

} // verus!
