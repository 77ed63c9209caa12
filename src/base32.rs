//! Conversion of small integers to and from single base32 characters (`A`-`Z`, then
//! `2`-`7`), as the compact note encoding uses them.

use vstd::prelude::*;

verus! {

/// A character that is no base32 digit.
#[derive(Debug)]
pub struct FromBase32Error {
    pub source: char,
}

/// A value that has no base32 digit.
#[derive(Debug)]
pub struct ToBase32Error<T> {
    pub source: T,
}

/// `c` with an ASCII lower case letter made upper case.
pub open spec fn ascii_upper(c: char) -> char {
    if 'a' <= c <= 'z' {
        ((c as u32) - 32) as char
    } else {
        c
    }
}

/// Position of an upper case base32 digit among `A`-`Z`, `2`-`7`.
pub open spec fn digit_index(c: char) -> Option<int> {
    if 'A' <= c <= 'Z' {
        Some(c as u32 - 'A' as u32)
    } else if '2' <= c <= '7' {
        Some(c as u32 - '2' as u32 + 26)
    } else {
        None
    }
}

/// The base32 digit at a position, 0 to 31.
pub open spec fn digit_at(i: int) -> char {
    if i < 26 {
        ('A' as u32 + i) as char
    } else {
        ('2' as u32 + i - 26) as char
    }
}

fn to_upper(c: char) -> (r: char)
    ensures
        r == ascii_upper(c),
{
    if c >= 'a' && c <= 'z' {
        char_of(c as u32 - 32)
    } else {
        c
    }
}

fn char_of(code: u32) -> (r: char)
    requires
        code < 128,
    ensures
        r as u32 == code,
        r == code as char,
{
    (code as u8) as char
}

/// A type that can be read from one base32 character.
pub trait FromBase32: Sized {
    /// The value a character stands for, if any.
    spec fn from_digit(source: char) -> Option<Self>;

    fn from_base32(source: char) -> (r: Result<Self, FromBase32Error>)
        ensures
            r is Ok <==> Self::from_digit(source) is Some,
            r is Ok ==> Self::from_digit(source) == Some(r->Ok_0),
            r is Err ==> r->Err_0.source == ascii_upper(source);
}

/// Signed: -16 to 15.
impl FromBase32 for i8 {
    open spec fn from_digit(source: char) -> Option<i8> {
        match digit_index(ascii_upper(source)) {
            Some(i) => Some((i - 16) as i8),
            None => None,
        }
    }

    fn from_base32(source: char) -> (r: Result<i8, FromBase32Error>) {
        let c = to_upper(source);
        if c >= 'A' && c <= 'Z' {
            Ok((c as u32 - 'A' as u32) as i8 - 16)
        } else if c >= '2' && c <= '7' {
            Ok((c as u32 - '2' as u32) as i8 + 10)
        } else {
            Err(FromBase32Error { source: c })
        }
    }
}

/// Unsigned: 0 to 31.
impl FromBase32 for u8 {
    open spec fn from_digit(source: char) -> Option<u8> {
        match digit_index(ascii_upper(source)) {
            Some(i) => Some(i as u8),
            None => None,
        }
    }

    fn from_base32(source: char) -> (r: Result<u8, FromBase32Error>) {
        let c = to_upper(source);
        if c >= 'A' && c <= 'Z' {
            Ok((c as u32 - 'A' as u32) as u8)
        } else if c >= '2' && c <= '7' {
            Ok((c as u32 - '2' as u32) as u8 + 26)
        } else {
            Err(FromBase32Error { source: c })
        }
    }
}

/// A type that can be written as one base32 character.
pub trait ToBase32: Sized {
    /// The character a value is written as, if any.
    spec fn to_digit(self) -> Option<char>;

    fn to_base32(self) -> (r: Result<char, ToBase32Error<Self>>)
        ensures
            r is Ok <==> self.to_digit() is Some,
            r is Ok ==> self.to_digit() == Some(r->Ok_0),
            r is Err ==> r->Err_0.source == self;
}

/// Signed: -16 to 9 are `A` to `Z`, 10 to 16 count on from `2`.
impl ToBase32 for i8 {
    open spec fn to_digit(self) -> Option<char> {
        if -16 <= self <= 9 {
            Some(digit_at(self + 16))
        } else if 10 <= self <= 16 {
            Some(('2' as u32 + self - 10) as char)
        } else {
            None
        }
    }

    fn to_base32(self) -> (r: Result<char, ToBase32Error<i8>>) {
        if self >= -16 && self <= 9 {
            Ok(char_of(('A' as u32) + (self + 16) as u32))
        } else if self >= 10 && self <= 16 {
            Ok(char_of(('2' as u32) + (self - 10) as u32))
        } else {
            Err(ToBase32Error { source: self })
        }
    }
}

/// Unsigned: 0 to 31.
impl ToBase32 for u8 {
    open spec fn to_digit(self) -> Option<char> {
        if self <= 31 {
            Some(digit_at(self as int))
        } else {
            None
        }
    }

    fn to_base32(self) -> (r: Result<char, ToBase32Error<u8>>) {
        if self <= 25 {
            Ok(char_of(('A' as u32) + self as u32))
        } else if self <= 31 {
            Ok(char_of(('2' as u32) + (self - 26) as u32))
        } else {
            Err(ToBase32Error { source: self })
        }
    }
}

/// Decoding a character as a base32 digit, by method call.
pub trait Base32 {
    fn base32_decode<T: FromBase32>(self) -> (r: Result<T, FromBase32Error>)
        ensures
            r is Ok <==> T::from_digit(self.source_char()) is Some,
            r is Ok ==> T::from_digit(self.source_char()) == Some(r->Ok_0);

    /// The character to decode.
    spec fn source_char(self) -> char;
}

impl Base32 for char {
    fn base32_decode<T: FromBase32>(self) -> (r: Result<T, FromBase32Error>) {
        T::from_base32(self)
    }

    open spec fn source_char(self) -> char {
        self
    }
}

} // verus!
