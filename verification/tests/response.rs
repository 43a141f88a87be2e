use microscpi::response::not_finite;
use microscpi::{Arbitrary, Buffer, Characters, Error, NotFinite, Response, Write};

fn write_f32<W: Write>(value: f32, f: &mut W) -> Result<(), Error> {
    match not_finite(value.is_nan(), value.is_infinite(), value.is_sign_negative()) {
        Some(text) => text.write_response(f),
        None => f.write_str(&format!("{}", value)),
    }
}

fn write_f64<W: Write>(value: f64, f: &mut W) -> Result<(), Error> {
    match not_finite(value.is_nan(), value.is_infinite(), value.is_sign_negative()) {
        Some(text) => text.write_response(f),
        None => f.write_str(&format!("{}", value)),
    }
}

struct Real(f64);

impl Response for Real {
    fn write_response<W: Write>(&self, f: &mut W) -> Result<(), Error> {
        write_f64(self.0, f)
    }
}

#[test]
fn test_bool_response() {
    let mut buffer: Vec<u8> = Vec::new();
    true.write_response(&mut buffer).unwrap();
    assert_eq!(buffer, b"1");

    let mut buffer: Vec<u8> = Vec::new();
    false.write_response(&mut buffer).unwrap();
    assert_eq!(buffer, b"0");
}

#[test]
fn test_label_response() {
    let mut buffer: Vec<u8> = Vec::new();
    Characters("TEST").write_response(&mut buffer).unwrap();
    assert_eq!(buffer, b"TEST");
}

#[test]
fn test_str_response() {
    let mut buffer: Vec<u8> = Vec::new();
    "hello".write_response(&mut buffer).unwrap();
    assert_eq!(buffer, b"\"hello\"");
}

#[test]
fn test_i8_response() {
    let mut buffer: Vec<u8> = Vec::new();
    (-121_i8).write_response(&mut buffer).unwrap();
    assert_eq!(buffer, b"-121");
}

#[test]
fn test_u8_response() {
    let mut buffer: Vec<u8> = Vec::new();
    83_u8.write_response(&mut buffer).unwrap();
    assert_eq!(buffer, b"83");
}

#[test]
fn test_i16_response() {
    let mut buffer: Vec<u8> = Vec::new();
    (-23502_i16).write_response(&mut buffer).unwrap();
    assert_eq!(buffer, b"-23502");
}

#[test]
fn test_u16_response() {
    let mut buffer: Vec<u8> = Vec::new();
    54968_u16.write_response(&mut buffer).unwrap();
    assert_eq!(buffer, b"54968");
}

#[test]
fn test_i32_response() {
    let mut buffer: Vec<u8> = Vec::new();
    (-3895783_i32).write_response(&mut buffer).unwrap();
    assert_eq!(buffer, b"-3895783");
}

#[test]
fn test_u32_response() {
    let mut buffer: Vec<u8> = Vec::new();
    9437838_u32.write_response(&mut buffer).unwrap();
    assert_eq!(buffer, b"9437838");
}

#[test]
fn test_i64_response() {
    let mut buffer: Vec<u8> = Vec::new();
    (-128945978592_i64).write_response(&mut buffer).unwrap();
    assert_eq!(buffer, b"-128945978592");
}

#[test]
fn test_u64_response() {
    let mut buffer: Vec<u8> = Vec::new();
    39048530499456_u64.write_response(&mut buffer).unwrap();
    assert_eq!(buffer, b"39048530499456");
}

#[test]
fn test_isize_response() {
    let mut buffer: Vec<u8> = Vec::new();
    (-3451512_isize).write_response(&mut buffer).unwrap();
    assert_eq!(buffer, b"-3451512");
}

#[test]
fn test_usize_response() {
    let mut buffer: Vec<u8> = Vec::new();
    49684793_usize.write_response(&mut buffer).unwrap();
    assert_eq!(buffer, b"49684793");
}

#[test]
fn test_f32_response() {
    let mut buffer: Vec<u8> = Vec::new();
    write_f32(1.23_f32, &mut buffer).unwrap();
    assert_eq!(buffer, b"1.23");

    let mut buffer: Vec<u8> = Vec::new();
    write_f32(f32::NAN, &mut buffer).unwrap();
    assert_eq!(buffer, b"9.91E+37");

    let mut buffer: Vec<u8> = Vec::new();
    write_f32(f32::INFINITY, &mut buffer).unwrap();
    assert_eq!(buffer, b"9.9E+37");

    let mut buffer: Vec<u8> = Vec::new();
    write_f32(f32::NEG_INFINITY, &mut buffer).unwrap();
    assert_eq!(buffer, b"-9.9E+37");
}

#[test]
fn test_f64_response() {
    let mut buffer: Vec<u8> = Vec::new();
    write_f64(4.56_f64, &mut buffer).unwrap();
    assert_eq!(buffer, b"4.56");

    let mut buffer: Vec<u8> = Vec::new();
    write_f64(f64::NAN, &mut buffer).unwrap();
    assert_eq!(buffer, b"9.91E+37");

    let mut buffer: Vec<u8> = Vec::new();
    write_f64(f64::INFINITY, &mut buffer).unwrap();
    assert_eq!(buffer, b"9.9E+37");

    let mut buffer: Vec<u8> = Vec::new();
    write_f64(f64::NEG_INFINITY, &mut buffer).unwrap();
    assert_eq!(buffer, b"-9.9E+37");
}

#[test]
fn test_arbitrary_response() {
    let mut buffer: Vec<u8> = Vec::new();
    Arbitrary(&[0x23, 0x42, 0x85, 0xab, 0xfe, 0xac])
        .write_response(&mut buffer)
        .unwrap();
    assert_eq!(buffer, b"#16\x23\x42\x85\xab\xfe\xac");

    let mut buffer: Vec<u8> = Vec::new();
    Arbitrary(b"\xb7\x54\x5d\xc8\x60\x10\xa5\x13\x33\x3c\xd0")
        .write_response(&mut buffer)
        .unwrap();
    assert_eq!(buffer, b"#211\xb7\x54\x5d\xc8\x60\x10\xa5\x13\x33\x3c\xd0");

    let mut buffer: Vec<u8> = Vec::new();
    Arbitrary(&[]).write_response(&mut buffer).unwrap();
    assert_eq!(buffer, b"#10");
}

#[test]
fn test_tuple_response() {
    let mut buffer: Vec<u8> = Vec::new();
    (123, "world").write_response(&mut buffer).unwrap();
    assert_eq!(buffer, b"123,\"world\"");
}

#[test]
fn test_slice_response() {
    let mut buffer: Vec<u8> = Vec::new();
    let slice: &[i32] = &[1, 2, 3, 4, 5];
    slice.write_response(&mut buffer).unwrap();
    assert_eq!(buffer, b"1,2,3,4,5");

    let mut buffer: Vec<u8> = Vec::new();
    let slice: &[&str] = &["one", "two", "three"];
    slice.write_response(&mut buffer).unwrap();
    assert_eq!(buffer, b"\"one\",\"two\",\"three\"");

    let mut buffer: Vec<u8> = Vec::new();
    let slice: &[bool] = &[true, false, true];
    slice.write_response(&mut buffer).unwrap();
    assert_eq!(buffer, b"1,0,1");

    let mut buffer: Vec<u8> = Vec::new();
    let slice: &[Real] = &[Real(1.1), Real(2.2), Real(3.3)];
    slice.write_response(&mut buffer).unwrap();
    assert_eq!(buffer, b"1.1,2.2,3.3");

    let mut buffer: Vec<u8> = Vec::new();
    let slice: &[Characters] = &[Characters("CMD1"), Characters("CMD2")];
    slice.write_response(&mut buffer).unwrap();
    assert_eq!(buffer, b"CMD1,CMD2");
}

#[test]
fn test_heapless_string_response() {
    let mut buffer: Vec<u8> = Vec::new();
    let mut test = heapless::String::<16>::new();
    test.push_str("Hello World").unwrap();
    test.as_str().write_response(&mut buffer).unwrap();
    assert_eq!(buffer, b"\"Hello World\"");
}

#[test]
fn the_edges_of_the_integers() {
    let mut buffer: Vec<u8> = Vec::new();
    (0u8, i64::MIN, u64::MAX, i8::MIN).write_response(&mut buffer).unwrap();
    assert_eq!(buffer, b"0,-9223372036854775808,18446744073709551615,-128");
    let mut buffer: Vec<u8> = Vec::new();
    (10u16, -10i16, 100usize).write_response(&mut buffer).unwrap();
    assert_eq!(buffer, b"10,-10,100");
}

#[test]
fn a_quote_in_a_string_is_sent_as_it_is() {
    let mut buffer: Vec<u8> = Vec::new();
    "say \"hi\"".write_response(&mut buffer).unwrap();
    assert_eq!(buffer, b"\"say \"hi\"\"");
    let mut buffer: Vec<u8> = Vec::new();
    String::from("").write_response(&mut buffer).unwrap();
    assert_eq!(buffer, b"\"\"");
}

#[test]
fn an_error_is_its_number_and_its_message() {
    let mut buffer: Vec<u8> = Vec::new();
    Error::UndefinedHeader.write_response(&mut buffer).unwrap();
    assert_eq!(buffer, b"-113,\"Undefined header\"");
    let mut buffer: Vec<u8> = Vec::new();
    Error::Custom(7, "Jam").write_response(&mut buffer).unwrap();
    assert_eq!(buffer, b"7,\"Jam\"");
}

#[test]
fn the_texts_of_numbers_that_are_not_finite() {
    assert_eq!(not_finite(true, false, false), Some(NotFinite::NotANumber));
    assert_eq!(not_finite(true, true, true), Some(NotFinite::NotANumber));
    assert_eq!(not_finite(false, true, false), Some(NotFinite::Infinity));
    assert_eq!(not_finite(false, true, true), Some(NotFinite::NegativeInfinity));
    assert_eq!(not_finite(false, false, true), None);
    assert_eq!(NotFinite::NotANumber.text(), "9.91E+37");
    assert_eq!(NotFinite::Infinity.text(), "9.9E+37");
    assert_eq!(NotFinite::NegativeInfinity.text(), "-9.9E+37");
}

#[test]
fn nothing_and_lists_of_nothing() {
    let mut buffer: Vec<u8> = Vec::new();
    ().write_response(&mut buffer).unwrap();
    assert_eq!(buffer, b"");
    let empty: &[u8] = &[];
    empty.write_response(&mut buffer).unwrap();
    assert_eq!(buffer, b"");
    vec![7u8].write_response(&mut buffer).unwrap();
    assert_eq!(buffer, b"7");
    let list: [(u8, bool); 2] = [(1, true), (2, false)];
    list[..].write_response(&mut buffer).unwrap();
    assert_eq!(buffer, b"71,1,2,0");
}

#[test]
fn a_full_buffer_is_too_much_data() {
    let mut buffer: Buffer<4> = Buffer::new();
    assert!(buffer.is_empty());
    assert_eq!(1234u16.write_response(&mut buffer), Ok(()));
    assert_eq!(buffer.as_slice(), b"1234");
    assert_eq!(buffer.len(), 4);
    assert_eq!(true.write_response(&mut buffer), Err(Error::TooMuchData));
    assert_eq!(buffer.as_slice(), b"1234");
    buffer.clear();
    // What fits before a failure stays written.
    assert_eq!((12u8, 345u16).write_response(&mut buffer), Err(Error::TooMuchData));
    assert_eq!(buffer.as_slice(), b"12,");
    buffer.clear();
    assert_eq!("abc".write_response(&mut buffer), Err(Error::TooMuchData));
    assert_eq!(buffer.as_slice(), b"\"abc");
    buffer.clear();
    assert_eq!(buffer.write_bytes(b"12345"), Err(Error::TooMuchData));
    assert_eq!(buffer.write_str("1234"), Ok(()));
    assert_eq!(buffer.write_char('5'), Err(Error::TooMuchData));
    assert_eq!(buffer.as_slice(), b"1234");
}

#[test]
fn a_character_is_written_as_one_byte() {
    let mut buffer: Vec<u8> = Vec::new();
    buffer.write_char('A').unwrap();
    buffer.write_char('\u{e9}').unwrap();
    buffer.write_char('\u{141}').unwrap();
    assert_eq!(buffer, [0x41, 0xe9, 0x41]);
    buffer.write_str("\u{e9}").unwrap();
    assert_eq!(buffer, [0x41, 0xe9, 0x41, 0xc3, 0xa9]);
}
