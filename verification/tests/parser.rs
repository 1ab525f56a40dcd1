use tagbin::{
    float32, float64, int16_t, int32_t, int64_t, int8_t, uint16_t, uint32_t, uint64_t, uint8_t,
    Error,
};

#[test]
fn parse_uint8() {
    assert_eq!(uint8_t(b"\x04\xA5"), Ok((&b""[..], 0xa5)));
    assert_eq!(uint8_t(b"\x04\xA7asd"), Ok((&b"asd"[..], 0xa7)));
    assert_eq!(uint8_t(b"\x04"), Err(Error::UnexpectedEnd));
    assert_eq!(uint8_t(b"\x00"), Err(Error::Syntax));
    assert_eq!(uint8_t(b""), Err(Error::UnexpectedEnd));
}

#[test]
fn parse_uint16() {
    assert_eq!(uint16_t(b"\x05\x01\x02"), Ok((&b""[..], 0x0102)));
    assert_eq!(uint16_t(b"\x05\x01"), Err(Error::UnexpectedEnd));
    assert_eq!(uint16_t(b"\x04\x01\x02"), Err(Error::Syntax));
}

#[test]
fn parse_uint32() {
    assert_eq!(uint32_t(b"\x06\xDE\xAD\xBE\xEFxy"), Ok((&b"xy"[..], 0xdead_beef)));
    assert_eq!(uint32_t(b"\x06\xDE\xAD"), Err(Error::UnexpectedEnd));
}

#[test]
fn parse_uint64() {
    assert_eq!(
        uint64_t(b"\x07\x01\x02\x03\x04\x05\x06\x07\x08"),
        Ok((&b""[..], 0x0102_0304_0506_0708))
    );
    assert_eq!(uint64_t(b"\x07\x01"), Err(Error::UnexpectedEnd));
}

#[test]
fn parse_int8() {
    assert_eq!(int8_t(b"\x08\xFF"), Ok((&b""[..], -1)));
    assert_eq!(int8_t(b"\x08\x80"), Ok((&b""[..], i8::MIN)));
    assert_eq!(int8_t(b"\x08\x7F"), Ok((&b""[..], 127)));
    assert_eq!(int8_t(b"\x04\x00"), Err(Error::Syntax));
}

#[test]
fn parse_int16() {
    assert_eq!(int16_t(b"\x09\xFE\x0C"), Ok((&b""[..], -500)));
    assert_eq!(int16_t(b"\x09\x7F\xFF"), Ok((&b""[..], i16::MAX)));
}

#[test]
fn parse_int32() {
    assert_eq!(int32_t(b"\x0A\x80\x00\x00\x00"), Ok((&b""[..], i32::MIN)));
    assert_eq!(int32_t(b"\x0A\x00\x00\x00\x2A"), Ok((&b""[..], 42)));
}

#[test]
fn parse_int64() {
    assert_eq!(
        int64_t(b"\x0B\xFF\xFF\xFF\xFF\xFF\xFF\xFF\xFF"),
        Ok((&b""[..], -1i64))
    );
    assert_eq!(
        int64_t(b"\x0B\x80\x00\x00\x00\x00\x00\x00\x00"),
        Ok((&b""[..], i64::MIN))
    );
}

#[test]
fn parse_float32_bits() {
    let (rest, bits) = float32(b"\x0C\x41\x48\x00\x00tail").unwrap();
    assert_eq!(rest, b"tail");
    assert_eq!(bits, 0x4148_0000);
    assert_eq!(f32::from_bits(bits), 12.5f32);
    assert_eq!(float32(b"\x0C\x41"), Err(Error::UnexpectedEnd));
}

#[test]
fn parse_float64_bits() {
    let (rest, bits) = float64(b"\x0D\x40\x29\x00\x00\x00\x00\x00\x00").unwrap();
    assert_eq!(rest, b"");
    assert_eq!(bits, 0x4029_0000_0000_0000);
    assert_eq!(f64::from_bits(bits), 12.5f64);
    // A NaN bit pattern is preserved exactly, not canonicalized.
    let (_, nan_bits) = float64(b"\x0D\x7F\xF0\x00\x00\x00\x00\xDE\xAD").unwrap();
    assert_eq!(nan_bits, 0x7ff0_0000_0000_dead);
    assert!(f64::from_bits(nan_bits).is_nan());
}
