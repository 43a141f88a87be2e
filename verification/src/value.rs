//! Arguments of a command: typed by their lexical form, converted to a
//! concrete type only when a handler asks for one.

use vstd::prelude::*;
use vstd::std_specs::convert::TryFromSpecImpl;
use vstd::string::StrSliceExecFns;
use vstd::utf8::encode_utf8;
use crate::ascii::{eq_ignore_case, same_name};
use crate::error::Error;

verus! {

/// SCPI argument value
///
/// Each variant borrows the bytes of the argument from the input. A number
/// is kept as it was written: its value is computed when a handler asks for
/// it as some integer type.
#[derive(Debug, Clone, Copy, PartialEq)]
pub enum Value<'a> {
    /// A string that was enclosed by single or double quotes, without the
    /// quotes. Example: `"Hello"` or `'Hello'`.
    String(&'a str),
    /// A word that stands for a constant, like `ON` or `OFF`. It is not
    /// enclosed by quotes.
    Characters(&'a str),
    /// A decimal number. Example: `3953.64`.
    Decimal(&'a str),
    /// The digits of a number in hexadecimal format, `#H3A1CE96` without
    /// the `#H`.
    Hexadecimal(&'a str),
    /// The digits of a number in binary format, `#B110101101` without the
    /// `#B`.
    Binary(&'a str),
    /// The digits of a number in octal format, `#Q735102` without the `#Q`.
    Octal(&'a str),
    /// Raw arbitrary data bytes.
    Arbitrary(&'a [u8]),
}

/// The model of a [`Value`]: its lexical class and the bytes it holds.
pub enum Lexeme {
    String(Seq<u8>),
    Characters(Seq<u8>),
    Decimal(Seq<u8>),
    Hexadecimal(Seq<u8>),
    Binary(Seq<u8>),
    Octal(Seq<u8>),
    Arbitrary(Seq<u8>),
}

impl<'a> View for Value<'a> {
    type V = Lexeme;

    open spec fn view(&self) -> Lexeme {
        match *self {
            Value::String(s) => Lexeme::String(encode_utf8(s@)),
            Value::Characters(s) => Lexeme::Characters(encode_utf8(s@)),
            Value::Decimal(s) => Lexeme::Decimal(encode_utf8(s@)),
            Value::Hexadecimal(s) => Lexeme::Hexadecimal(encode_utf8(s@)),
            Value::Binary(s) => Lexeme::Binary(encode_utf8(s@)),
            Value::Octal(s) => Lexeme::Octal(encode_utf8(s@)),
            Value::Arbitrary(b) => Lexeme::Arbitrary(b@),
        }
    }
}

/// The value of a character as a digit in the given radix: `0` to `9`, then
/// the letters in either case from ten on.
pub open spec fn digit_value(c: char, radix: int) -> Option<int> {
    let v = if '0' <= c && c <= '9' {
        c as int - '0' as int
    } else if 'a' <= c && c <= 'z' {
        c as int - 'a' as int + 10
    } else if 'A' <= c && c <= 'Z' {
        c as int - 'A' as int + 10
    } else {
        -1
    };
    if 0 <= v && v < radix {
        Some(v)
    } else {
        None
    }
}

/// The number that a string of digits denotes, the most significant digit
/// first. A string with anything but digits in it denotes none.
pub open spec fn digits_value(s: Seq<char>, radix: int) -> Option<int>
    decreases s.len(),
{
    if s.len() == 0 {
        Some(0)
    } else {
        match (digits_value(s.drop_last(), radix), digit_value(s.last(), radix)) {
            (Some(high), Some(low)) => Some(high * radix + low),
            _ => None,
        }
    }
}

/// The integer that a string denotes: an optional `+`, or `-` for a signed
/// type, and then at least one digit.
pub open spec fn integer_value(s: Seq<char>, radix: int, signed: bool) -> Option<int> {
    if s.len() == 0 {
        None
    } else if s[0] == '+' {
        if s.len() == 1 {
            None
        } else {
            digits_value(s.skip(1), radix)
        }
    } else if s[0] == '-' && signed {
        if s.len() == 1 {
            None
        } else {
            match digits_value(s.skip(1), radix) {
                Some(v) => Some(-v),
                None => None,
            }
        }
    } else {
        digits_value(s, radix)
    }
}

/// A string of digits denotes no negative number.
pub proof fn lemma_digits_not_negative(s: Seq<char>, radix: int)
    requires
        radix > 0,
    ensures
        digits_value(s, radix) is Some ==> digits_value(s, radix)->0 >= 0,
    decreases s.len(),
{
    if s.len() > 0 {
        lemma_digits_not_negative(s.drop_last(), radix);
        if digits_value(s, radix) is Some {
            let high = digits_value(s.drop_last(), radix)->0;
            assert(high * radix >= 0) by (nonlinear_arith)
                requires
                    high >= 0,
                    radix > 0,
            ;
        }
    }
}

/// Calls `u128::from_str_radix`. It accepts an optional `+` and then digits
/// of the radix, and fails on an empty string, on a `-`, on any other
/// character, and on a number above `u128::MAX`.
#[verifier::external_body]
fn u128_from_str_radix(s: &str, radix: u32) -> (r: Option<u128>)
    requires
        2 <= radix <= 36,
    ensures
        r == match integer_value(s@, radix as int, false) {
            Some(v) => if v <= u128::MAX {
                Some(v as u128)
            } else {
                None
            },
            None => None,
        },
{
    u128::from_str_radix(s, radix).ok()
}

/// Calls `i128::from_str_radix`. It accepts an optional `+` or `-` and then
/// digits of the radix, and fails on an empty string, on any other
/// character, and on a number outside of `i128`.
#[verifier::external_body]
fn i128_from_str_radix(s: &str, radix: u32) -> (r: Option<i128>)
    requires
        2 <= radix <= 36,
    ensures
        r == match integer_value(s@, radix as int, true) {
            Some(v) => if i128::MIN <= v && v <= i128::MAX {
                Some(v as i128)
            } else {
                None
            },
            None => None,
        },
{
    i128::from_str_radix(s, radix).ok()
}

/// The digits of a numeric value and the radix in which they are written.
pub open spec fn numeral(v: Value<'_>) -> Option<(Seq<char>, int)> {
    match v {
        Value::Decimal(s) => Some((s@, 10)),
        Value::Hexadecimal(s) => Some((s@, 16)),
        Value::Binary(s) => Some((s@, 2)),
        Value::Octal(s) => Some((s@, 8)),
        _ => None,
    }
}

/// The integer that a value converts to, for a type that holds the numbers
/// from `min` to `max`: a value that is no number is of the wrong type, and
/// a number that is malformed or out of range is a numeric data error.
pub open spec fn integer_of(v: Value<'_>, signed: bool, min: int, max: int) -> Result<int, Error> {
    match numeral(v) {
        None => Err(Error::DataTypeError),
        Some((text, radix)) => match integer_value(text, radix, signed) {
            Some(n) => if min <= n && n <= max {
                Ok(n)
            } else {
                Err(Error::NumericDataError)
            },
            None => Err(Error::NumericDataError),
        },
    }
}

/// The boolean that a value converts to: `ON` and `TRUE` in any case and the
/// decimal `1` are true, `OFF` and `FALSE` in any case and the decimal `0`
/// are false.
pub open spec fn boolean_of(v: Value<'_>) -> Result<bool, Error> {
    match v {
        Value::Characters(s) => {
            let word = encode_utf8(s@);
            if same_name(word, encode_utf8("ON"@)) || same_name(word, encode_utf8("TRUE"@)) {
                Ok(true)
            } else if same_name(word, encode_utf8("OFF"@)) || same_name(
                word,
                encode_utf8("FALSE"@),
            ) {
                Ok(false)
            } else {
                Err(Error::IllegalParameterValue)
            }
        },
        Value::Decimal(s) => {
            if s@ == "1"@ {
                Ok(true)
            } else if s@ == "0"@ {
                Ok(false)
            } else {
                Err(Error::IllegalParameterValue)
            }
        },
        _ => Err(Error::IllegalParameterValue),
    }
}

/// The digits and the radix of a numeric value.
fn numeral_of<'a>(v: &Value<'a>) -> (r: Option<(&'a str, u32)>)
    ensures
        match r {
            Some((text, radix)) => numeral(*v) == Some((text@, radix as int)) && 2 <= radix <= 36,
            None => numeral(*v) is None,
        },
{
    match *v {
        Value::Decimal(s) => Some((s, 10)),
        Value::Hexadecimal(s) => Some((s, 16)),
        Value::Binary(s) => Some((s, 2)),
        Value::Octal(s) => Some((s, 8)),
        _ => None,
    }
}

/// Converts a value to an unsigned integer of at most `max`.
fn unsigned_of(v: &Value<'_>, max: u128) -> (r: Result<u128, Error>)
    ensures
        match r {
            Ok(n) => integer_of(*v, false, 0, max as int) == Ok::<int, Error>(n as int),
            Err(e) => integer_of(*v, false, 0, max as int) == Err::<int, Error>(e),
        },
{
    match numeral_of(v) {
        None => Err(Error::DataTypeError),
        Some((text, radix)) => match {
            proof {
                lemma_digits_not_negative(text@, radix as int);
                lemma_digits_not_negative(text@.skip(1), radix as int);
            }
            u128_from_str_radix(text, radix)
        } {
            Some(n) => if n <= max {
                Ok(n)
            } else {
                Err(Error::NumericDataError)
            },
            None => Err(Error::NumericDataError),
        },
    }
}

/// Converts a value to a signed integer between `min` and `max`.
fn signed_of(v: &Value<'_>, min: i128, max: i128) -> (r: Result<i128, Error>)
    ensures
        match r {
            Ok(n) => integer_of(*v, true, min as int, max as int) == Ok::<int, Error>(n as int),
            Err(e) => integer_of(*v, true, min as int, max as int) == Err::<int, Error>(e),
        },
{
    match numeral_of(v) {
        None => Err(Error::DataTypeError),
        Some((text, radix)) => match i128_from_str_radix(text, radix) {
            Some(n) => if min <= n && n <= max {
                Ok(n)
            } else {
                Err(Error::NumericDataError)
            },
            None => Err(Error::NumericDataError),
        },
    }
}

impl<'a> Value<'a> {
    /// The text of a decimal number, for a conversion that this library
    /// leaves to its caller. A value of another class is of the wrong type.
    pub fn decimal_text(&self) -> (r: Result<&'a str, Error>)
        ensures
            match *self {
                Value::Decimal(s) => r == Ok::<&str, Error>(s),
                _ => r == Err::<&str, Error>(Error::DataTypeError),
            },
    {
        match *self {
            Value::Decimal(s) => Ok(s),
            _ => Err(Error::DataTypeError),
        }
    }
}

impl<'a> TryFrom<Value<'a>> for &'a str {
    type Error = Error;

    fn try_from(v: Value<'a>) -> (r: Result<&'a str, Error>) {
        match v {
            Value::String(data) => Ok(data),
            _ => Err(Error::DataTypeError),
        }
    }
}

impl<'a> TryFromSpecImpl<Value<'a>> for &'a str {
    open spec fn obeys_try_from_spec() -> bool {
        true
    }

    open spec fn try_from_spec(v: Value<'a>) -> Result<&'a str, Error> {
        match v {
            Value::String(data) => Ok(data),
            _ => Err(Error::DataTypeError),
        }
    }
}

impl<'a> TryFrom<Value<'a>> for &'a [u8] {
    type Error = Error;

    fn try_from(v: Value<'a>) -> (r: Result<&'a [u8], Error>) {
        match v {
            Value::Arbitrary(data) => Ok(data),
            _ => Err(Error::DataTypeError),
        }
    }
}

impl<'a> TryFromSpecImpl<Value<'a>> for &'a [u8] {
    open spec fn obeys_try_from_spec() -> bool {
        true
    }

    open spec fn try_from_spec(v: Value<'a>) -> Result<&'a [u8], Error> {
        match v {
            Value::Arbitrary(data) => Ok(data),
            _ => Err(Error::DataTypeError),
        }
    }
}

impl<'a> TryFrom<Value<'a>> for bool {
    type Error = Error;

    fn try_from(v: Value<'a>) -> (r: Result<bool, Error>) {
        match v {
            Value::Characters(s) => {
                let word = s.as_bytes();
                if eq_ignore_case(word, "ON".as_bytes()) || eq_ignore_case(
                    word,
                    "TRUE".as_bytes(),
                ) {
                    Ok(true)
                } else if eq_ignore_case(word, "OFF".as_bytes()) || eq_ignore_case(
                    word,
                    "FALSE".as_bytes(),
                ) {
                    Ok(false)
                } else {
                    Err(Error::IllegalParameterValue)
                }
            },
            Value::Decimal(s) => {
                proof {
                    reveal_strlit("0");
                    reveal_strlit("1");
                }
                assert("1"@ =~= seq!['1']);
                assert("0"@ =~= seq!['0']);
                if is_one_digit(s, '1') {
                    Ok(true)
                } else if is_one_digit(s, '0') {
                    Ok(false)
                } else {
                    Err(Error::IllegalParameterValue)
                }
            },
            _ => Err(Error::IllegalParameterValue),
        }
    }
}

impl<'a> TryFromSpecImpl<Value<'a>> for bool {
    open spec fn obeys_try_from_spec() -> bool {
        true
    }

    open spec fn try_from_spec(v: Value<'a>) -> Result<bool, Error> {
        boolean_of(v)
    }
}

/// Tells whether a string is the one ASCII character `c`.
fn is_one_digit(s: &str, c: char) -> (r: bool)
    requires
        '0' <= c <= '9',
    ensures
        r == (s@ == seq![c]),
{
    if s.unicode_len() != 1 {
        return false;
    }
    let r = s.get_char(0) == c;
    assert(r ==> s@ =~= seq![c]);
    r
}

impl<'a> TryFrom<Value<'a>> for u8 {
    type Error = Error;

    fn try_from(v: Value<'a>) -> (r: Result<u8, Error>) {
        match unsigned_of(&v, u8::MAX as u128) {
            Ok(n) => Ok(n as u8),
            Err(e) => Err(e),
        }
    }
}

impl<'a> TryFromSpecImpl<Value<'a>> for u8 {
    open spec fn obeys_try_from_spec() -> bool {
        true
    }

    open spec fn try_from_spec(v: Value<'a>) -> Result<u8, Error> {
        match integer_of(v, false, 0, u8::MAX as int) {
            Ok(n) => Ok(n as u8),
            Err(e) => Err(e),
        }
    }
}

impl<'a> TryFrom<Value<'a>> for u16 {
    type Error = Error;

    fn try_from(v: Value<'a>) -> (r: Result<u16, Error>) {
        match unsigned_of(&v, u16::MAX as u128) {
            Ok(n) => Ok(n as u16),
            Err(e) => Err(e),
        }
    }
}

impl<'a> TryFromSpecImpl<Value<'a>> for u16 {
    open spec fn obeys_try_from_spec() -> bool {
        true
    }

    open spec fn try_from_spec(v: Value<'a>) -> Result<u16, Error> {
        match integer_of(v, false, 0, u16::MAX as int) {
            Ok(n) => Ok(n as u16),
            Err(e) => Err(e),
        }
    }
}

impl<'a> TryFrom<Value<'a>> for u32 {
    type Error = Error;

    fn try_from(v: Value<'a>) -> (r: Result<u32, Error>) {
        match unsigned_of(&v, u32::MAX as u128) {
            Ok(n) => Ok(n as u32),
            Err(e) => Err(e),
        }
    }
}

impl<'a> TryFromSpecImpl<Value<'a>> for u32 {
    open spec fn obeys_try_from_spec() -> bool {
        true
    }

    open spec fn try_from_spec(v: Value<'a>) -> Result<u32, Error> {
        match integer_of(v, false, 0, u32::MAX as int) {
            Ok(n) => Ok(n as u32),
            Err(e) => Err(e),
        }
    }
}

impl<'a> TryFrom<Value<'a>> for u64 {
    type Error = Error;

    fn try_from(v: Value<'a>) -> (r: Result<u64, Error>) {
        match unsigned_of(&v, u64::MAX as u128) {
            Ok(n) => Ok(n as u64),
            Err(e) => Err(e),
        }
    }
}

impl<'a> TryFromSpecImpl<Value<'a>> for u64 {
    open spec fn obeys_try_from_spec() -> bool {
        true
    }

    open spec fn try_from_spec(v: Value<'a>) -> Result<u64, Error> {
        match integer_of(v, false, 0, u64::MAX as int) {
            Ok(n) => Ok(n as u64),
            Err(e) => Err(e),
        }
    }
}

impl<'a> TryFrom<Value<'a>> for usize {
    type Error = Error;

    fn try_from(v: Value<'a>) -> (r: Result<usize, Error>) {
        match unsigned_of(&v, usize::MAX as u128) {
            Ok(n) => Ok(n as usize),
            Err(e) => Err(e),
        }
    }
}

impl<'a> TryFromSpecImpl<Value<'a>> for usize {
    open spec fn obeys_try_from_spec() -> bool {
        true
    }

    open spec fn try_from_spec(v: Value<'a>) -> Result<usize, Error> {
        match integer_of(v, false, 0, usize::MAX as int) {
            Ok(n) => Ok(n as usize),
            Err(e) => Err(e),
        }
    }
}

impl<'a> TryFrom<Value<'a>> for i8 {
    type Error = Error;

    fn try_from(v: Value<'a>) -> (r: Result<i8, Error>) {
        match signed_of(&v, i8::MIN as i128, i8::MAX as i128) {
            Ok(n) => Ok(n as i8),
            Err(e) => Err(e),
        }
    }
}

impl<'a> TryFromSpecImpl<Value<'a>> for i8 {
    open spec fn obeys_try_from_spec() -> bool {
        true
    }

    open spec fn try_from_spec(v: Value<'a>) -> Result<i8, Error> {
        match integer_of(v, true, i8::MIN as int, i8::MAX as int) {
            Ok(n) => Ok(n as i8),
            Err(e) => Err(e),
        }
    }
}

impl<'a> TryFrom<Value<'a>> for i16 {
    type Error = Error;

    fn try_from(v: Value<'a>) -> (r: Result<i16, Error>) {
        match signed_of(&v, i16::MIN as i128, i16::MAX as i128) {
            Ok(n) => Ok(n as i16),
            Err(e) => Err(e),
        }
    }
}

impl<'a> TryFromSpecImpl<Value<'a>> for i16 {
    open spec fn obeys_try_from_spec() -> bool {
        true
    }

    open spec fn try_from_spec(v: Value<'a>) -> Result<i16, Error> {
        match integer_of(v, true, i16::MIN as int, i16::MAX as int) {
            Ok(n) => Ok(n as i16),
            Err(e) => Err(e),
        }
    }
}

impl<'a> TryFrom<Value<'a>> for i32 {
    type Error = Error;

    fn try_from(v: Value<'a>) -> (r: Result<i32, Error>) {
        match signed_of(&v, i32::MIN as i128, i32::MAX as i128) {
            Ok(n) => Ok(n as i32),
            Err(e) => Err(e),
        }
    }
}

impl<'a> TryFromSpecImpl<Value<'a>> for i32 {
    open spec fn obeys_try_from_spec() -> bool {
        true
    }

    open spec fn try_from_spec(v: Value<'a>) -> Result<i32, Error> {
        match integer_of(v, true, i32::MIN as int, i32::MAX as int) {
            Ok(n) => Ok(n as i32),
            Err(e) => Err(e),
        }
    }
}

impl<'a> TryFrom<Value<'a>> for i64 {
    type Error = Error;

    fn try_from(v: Value<'a>) -> (r: Result<i64, Error>) {
        match signed_of(&v, i64::MIN as i128, i64::MAX as i128) {
            Ok(n) => Ok(n as i64),
            Err(e) => Err(e),
        }
    }
}

impl<'a> TryFromSpecImpl<Value<'a>> for i64 {
    open spec fn obeys_try_from_spec() -> bool {
        true
    }

    open spec fn try_from_spec(v: Value<'a>) -> Result<i64, Error> {
        match integer_of(v, true, i64::MIN as int, i64::MAX as int) {
            Ok(n) => Ok(n as i64),
            Err(e) => Err(e),
        }
    }
}

impl<'a> TryFrom<Value<'a>> for isize {
    type Error = Error;

    fn try_from(v: Value<'a>) -> (r: Result<isize, Error>) {
        match signed_of(&v, isize::MIN as i128, isize::MAX as i128) {
            Ok(n) => Ok(n as isize),
            Err(e) => Err(e),
        }
    }
}

impl<'a> TryFromSpecImpl<Value<'a>> for isize {
    open spec fn obeys_try_from_spec() -> bool {
        true
    }

    open spec fn try_from_spec(v: Value<'a>) -> Result<isize, Error> {
        match integer_of(v, true, isize::MIN as int, isize::MAX as int) {
            Ok(n) => Ok(n as isize),
            Err(e) => Err(e),
        }
    }
}

} // verus!
