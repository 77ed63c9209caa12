use asciimusic::base32::{Base32, FromBase32, ToBase32};

#[test]
fn unsigned_base32_digits() {
    assert_eq!(u8::from_base32('A').unwrap(), 0);
    assert_eq!(u8::from_base32('z').unwrap(), 25);
    assert_eq!(u8::from_base32('2').unwrap(), 26);
    assert_eq!(u8::from_base32('7').unwrap(), 31);
    assert_eq!(u8::from_base32('8').unwrap_err().source, '8');
    assert_eq!(u8::from_base32('!').unwrap_err().source, '!');
    for value in 0..32u8 {
        assert_eq!(u8::from_base32(value.to_base32().unwrap()).unwrap(), value);
    }
    assert_eq!(32u8.to_base32().unwrap_err().source, 32);
}

#[test]
fn signed_base32_digits() {
    assert_eq!(i8::from_base32('a').unwrap(), -16);
    assert_eq!(i8::from_base32('Z').unwrap(), 9);
    assert_eq!(i8::from_base32('2').unwrap(), 10);
    assert_eq!(i8::from_base32('7').unwrap(), 15);
    assert_eq!(i8::from_base32('1').unwrap_err().source, '1');
    for value in -16..16i8 {
        assert_eq!(i8::from_base32(value.to_base32().unwrap()).unwrap(), value);
    }
    assert_eq!(16i8.to_base32().unwrap(), '8');
    assert_eq!(17i8.to_base32().unwrap_err().source, 17);
    assert_eq!((-17i8).to_base32().unwrap_err().source, -17);
}

#[test]
fn decode_by_method() {
    let value: u8 = 'c'.base32_decode().unwrap();
    assert_eq!(value, 2);
    let value: i8 = 'c'.base32_decode().unwrap();
    assert_eq!(value, -14);
    assert!('#'.base32_decode::<u8>().is_err());
}
