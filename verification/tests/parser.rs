use microscpi::command::Command;
use microscpi::parser::{
    arbitrary_block_program_data, argument, argument_separator, arguments,
    binary_numeric_program_data, command_program_header, common_command_program_header,
    compound_command_program_header, decimal_numeric_program_data, digits, exponent,
    header_separator, hexadecimal_numeric_program_data, is_whitespace, mantissa, mnemonic,
    octal_numeric_program_data, optional, parse, program_mnemonic, resynchronize, satisfy, sign,
    string_program_data, tag, take_while, terminator, whitespace, CommandCall, Header, ParseError,
};
use microscpi::{Error, Tree, Value, MAX_ARGS};

const IDN_NODE: usize = 1;
const SYST_NODE: usize = 2;
const ERR_NODE: usize = 3;

/// A root with the children `*IDN` and `SYST`, and `ERR` below `SYST`.
fn tree() -> Tree {
    let mut tree = Tree::new();
    tree.insert(&Command::try_from("*IDN").unwrap(), 0, 0).unwrap();
    tree.insert(&Command::try_from("SYST:ERR").unwrap(), 1, 0).unwrap();
    assert_eq!(tree.child(0, "*IDN"), Some(IDN_NODE));
    assert_eq!(tree.child(0, "SYST"), Some(SYST_NODE));
    assert_eq!(tree.child(SYST_NODE, "ERR"), Some(ERR_NODE));
    tree
}

fn args(values: &[Value<'static>]) -> heapless::Vec<Value<'static>, MAX_ARGS> {
    heapless::Vec::from_slice(values).unwrap()
}

#[test]
pub fn test_take_while() {
    assert_eq!(
        take_while(|c| c == b'z', b"zzzzx"),
        Ok((&b"x"[..], &b"zzzz"[..]))
    );

    assert_eq!(
        take_while(|c| c == b'x', b"zzzzx"),
        Ok((&b"zzzzx"[..], &b""[..]))
    );
}

#[test]
pub fn test_whitespace() {
    assert_eq!(
        whitespace(b" \t \r xyz"),
        Ok((&b"xyz"[..], &b" \t \r "[..]))
    );
    assert_eq!(whitespace(b"abc"), Err(Error::InvalidCharacter.into()));
}

#[test]
pub fn test_digits() {
    assert_eq!(digits(b""), Err(ParseError::Incomplete));
    assert_eq!(digits(b"abc"), Err(Error::InvalidCharacter.into()));
    assert_eq!(digits(b"1"), Ok((&b""[..], &b"1"[..])));
    assert_eq!(digits(b"1a"), Ok((&b"a"[..], &b"1"[..])));
    assert_eq!(digits(b"12"), Ok((&b""[..], &b"12"[..])));
    assert_eq!(digits(b"12a"), Ok((&b"a"[..], &b"12"[..])));
    assert_eq!(digits(b"01234567890"), Ok((&b""[..], &b"01234567890"[..])));
    assert_eq!(
        digits(b"01234567890abc"),
        Ok((&b"abc"[..], &b"01234567890"[..]))
    );
}

#[test]
pub fn test_mnemonic() {
    assert_eq!(
        mnemonic(b"a1b2_c3 uvw"),
        Ok((&b" uvw"[..], Value::Characters("a1b2_c3")))
    );

    assert_eq!(
        mnemonic(b"142b"),
        Err(ParseError::SoftError(Some(Error::InvalidCharacter)))
    );
}

#[test]
pub fn test_decimal() {
    assert_eq!(
        decimal_numeric_program_data(b"089582"),
        Ok((&b""[..], Value::Decimal("089582")))
    );

    assert_eq!(
        decimal_numeric_program_data(b"23.439"),
        Ok((&b""[..], Value::Decimal("23.439")))
    );

    assert_eq!(
        decimal_numeric_program_data(b"42.439E-29"),
        Ok((&b""[..], Value::Decimal("42.439E-29")))
    );
}

#[test]
pub fn test_arguments() {
    let mut args: heapless::Vec<Value<'_>, MAX_ARGS> = heapless::Vec::new();
    assert_eq!(arguments(&mut args, b"123, 456\n"), Ok((&b"\n"[..], ())));
    assert_eq!(&args[..], &[Value::Decimal("123"), Value::Decimal("456")]);
}

#[test]
pub fn test_satisfy() {
    assert_eq!(satisfy(|c| c == b'a', b"abc"), Ok((&b"bc"[..], b'a')));
    assert_eq!(
        satisfy(|c| c == b'a', b"bca"),
        Err(Error::InvalidCharacter.into())
    );
    assert_eq!(satisfy(|c| c == b'a', b""), Err(ParseError::Incomplete));
}

#[test]
pub fn test_optional() {
    assert_eq!(
        optional(|i| satisfy(|c| c == b'a', i), b"abc"),
        Ok((&b"bc"[..], Some(b'a')))
    );
    assert_eq!(
        optional(|i| satisfy(|c| c == b'a', i), b"bca"),
        Ok((&b"bca"[..], None))
    );
    assert_eq!(optional(|i| satisfy(|c| c == b'a', i), b""), Ok((&b""[..], None)));
}

#[test]
pub fn test_tag() {
    assert_eq!(tag(b'a', b"abc"), Ok((&b"bc"[..], b'a')));
    assert_eq!(tag(b'a', b"bca"), Err(Error::InvalidCharacter.into()));
    assert_eq!(tag(b'a', b""), Err(ParseError::Incomplete));
}

#[test]
pub fn test_terminator() {
    assert_eq!(terminator(b"\n"), Ok((&b""[..], b'\n')));
    assert_eq!(terminator(b"\nabc"), Ok((&b"abc"[..], b'\n')));
    assert_eq!(terminator(b"abc"), Err(Error::InvalidCharacter.into()));
}

#[test]
pub fn test_mantissa() {
    assert_eq!(mantissa(b"123.456"), Ok((&b""[..], &b"123.456"[..])));
    assert_eq!(mantissa(b"-123.456"), Ok((&b""[..], &b"-123.456"[..])));
    assert_eq!(mantissa(b"123"), Ok((&b""[..], &b"123"[..])));
    assert_eq!(mantissa(b".456"), Ok((&b""[..], &b".456"[..])));
    assert_eq!(mantissa(b"abc"), Err(Error::InvalidCharacter.into()));
}

#[test]
pub fn test_exponent() {
    assert_eq!(exponent(b"E123"), Ok((&b""[..], &b"E123"[..])));
    assert_eq!(exponent(b"e-123"), Ok((&b""[..], &b"e-123"[..])));
    assert_eq!(exponent(b"E"), Err(ParseError::Incomplete));
    assert_eq!(exponent(b"abc"), Err(Error::InvalidCharacter.into()));
}

#[test]
pub fn test_header_separator() {
    assert_eq!(header_separator(b": "), Ok((&b""[..], ())));
    assert_eq!(header_separator(b":"), Ok((&b""[..], ())));
    assert_eq!(
        header_separator(b"abc"),
        Err(Error::HeaderSeparatorError.into())
    );
}

#[test]
pub fn test_common_command_program_header() {
    let tree = tree();
    assert_eq!(
        common_command_program_header(&tree, b"*IDN"),
        Ok((&b""[..], Header { node: IDN_NODE, parent: None }))
    );

    assert_eq!(
        common_command_program_header(&tree, b"*XYZ"),
        Err(Error::UndefinedHeader.into())
    );
}

#[test]
pub fn test_compound_command_program_header() {
    let tree = tree();
    assert_eq!(
        compound_command_program_header(&tree, tree.root(), b"SYST:ERR"),
        Ok((&b""[..], Header { node: ERR_NODE, parent: Some(SYST_NODE) }))
    );

    assert_eq!(
        compound_command_program_header(&tree, tree.root(), b"SYST:XYZ"),
        Err(Error::UndefinedHeader.into())
    );
}

#[test]
pub fn test_command_program_header() {
    let tree = tree();
    assert_eq!(
        command_program_header(&tree, tree.root(), b"*IDN"),
        Ok((&b""[..], Header { node: IDN_NODE, parent: None }))
    );

    assert_eq!(
        command_program_header(&tree, tree.root(), b"SYST:ERR"),
        Ok((&b""[..], Header { node: ERR_NODE, parent: Some(SYST_NODE) }))
    );

    assert_eq!(
        command_program_header(&tree, tree.root(), b"*XYZ"),
        Err(Error::UndefinedHeader.into())
    );
}

#[test]
pub fn test_argument_separator() {
    assert_eq!(argument_separator(b", "), Ok((&b""[..], ())));
    assert_eq!(argument_separator(b","), Ok((&b""[..], ())));
    assert_eq!(
        argument_separator(b"abc"),
        Err(Error::InvalidSeparator.into())
    );
}

#[test]
pub fn test_parse() {
    let tree = tree();
    assert_eq!(
        parse(&tree, tree.root(), b"*IDN?\n"),
        Ok((
            &b""[..],
            Some(CommandCall {
                node: IDN_NODE,
                query: true,
                args: heapless::Vec::new(),
                header: None,
                terminated: true,
            })
        ))
    );

    assert_eq!(
        parse(&tree, tree.root(), b"SYST:ERR 123, 456\n"),
        Ok((
            &b""[..],
            Some(CommandCall {
                node: ERR_NODE,
                query: false,
                args: args(&[Value::Decimal("123"), Value::Decimal("456")]),
                header: Some(SYST_NODE),
                terminated: true,
            })
        ))
    );

    assert_eq!(
        parse(&tree, tree.root(), b"*XYZ\n"),
        Err(Error::UndefinedHeader.into())
    );
}

#[test]
pub fn test_hexadecimal() {
    assert_eq!(
        hexadecimal_numeric_program_data(b"#H1A2B"),
        Ok((&b""[..], Value::Hexadecimal("1A2B")))
    );

    assert_eq!(
        hexadecimal_numeric_program_data(b"#h1a2b"),
        Ok((&b""[..], Value::Hexadecimal("1a2b")))
    );

    assert_eq!(
        hexadecimal_numeric_program_data(b"#HXYZ"),
        Err(Error::InvalidCharacter.into())
    );
}

#[test]
pub fn test_binary() {
    assert_eq!(
        binary_numeric_program_data(b"#B1010"),
        Ok((&b""[..], Value::Binary("1010")))
    );

    assert_eq!(
        binary_numeric_program_data(b"#b1101"),
        Ok((&b""[..], Value::Binary("1101")))
    );

    assert_eq!(
        binary_numeric_program_data(b"#B102"),
        Ok((&b"2"[..], Value::Binary("10")))
    );
}

#[test]
pub fn test_octal() {
    assert_eq!(
        octal_numeric_program_data(b"#Q123"),
        Ok((&b""[..], Value::Octal("123")))
    );

    assert_eq!(
        octal_numeric_program_data(b"#q456"),
        Ok((&b""[..], Value::Octal("456")))
    );

    assert_eq!(
        octal_numeric_program_data(b"#Q89"),
        Err(Error::InvalidCharacter.into())
    );
}

#[test]
pub fn test_parse_with_whitespace() {
    let tree = tree();
    assert_eq!(
        parse(&tree, tree.root(), b"  *IDN?  \n"),
        Ok((
            &b""[..],
            Some(CommandCall {
                node: IDN_NODE,
                query: true,
                args: heapless::Vec::new(),
                header: None,
                terminated: true,
            })
        ))
    );

    assert_eq!(
        parse(&tree, tree.root(), b"  SYST:ERR  123,  456  \n"),
        Ok((
            &b""[..],
            Some(CommandCall {
                node: ERR_NODE,
                query: false,
                args: args(&[Value::Decimal("123"), Value::Decimal("456")]),
                header: Some(SYST_NODE),
                terminated: true,
            })
        ))
    );
}

#[test]
pub fn test_parse_incomplete() {
    let tree = tree();
    assert_eq!(parse(&tree, tree.root(), b"*IDN?"), Err(ParseError::Incomplete));
}

#[test]
pub fn test_parse_invalid_character() {
    let tree = tree();
    assert_eq!(
        parse(&tree, tree.root(), b"*IDN?abc\n"),
        Err(Error::InvalidCharacter.into())
    );

    assert_eq!(
        parse(&tree, tree.root(), b"SYST:ERR 123, 456abc\n"),
        Err(Error::InvalidCharacter.into())
    );
}

#[test]
fn whitespace_is_what_the_standard_says() {
    for byte in 0..=255u8 {
        assert_eq!(is_whitespace(byte), byte <= 9 || (11..=32).contains(&byte));
    }
    assert_eq!(whitespace(b""), Err(ParseError::Incomplete));
    assert_eq!(whitespace(b"  "), Ok((&b""[..], &b"  "[..])));
    assert_eq!(whitespace(b"\n"), Err(Error::InvalidCharacter.into()));
}

#[test]
fn a_mnemonic_begins_with_a_letter() {
    assert_eq!(program_mnemonic(b"SYST:ERR"), Ok((&b":ERR"[..], &b"SYST"[..])));
    assert_eq!(program_mnemonic(b"a_1*"), Ok((&b"*"[..], &b"a_1"[..])));
    assert_eq!(program_mnemonic(b"_a"), Err(Error::InvalidCharacter.into()));
    assert_eq!(program_mnemonic(b"*IDN"), Err(Error::InvalidCharacter.into()));
    assert_eq!(program_mnemonic(b""), Err(ParseError::Incomplete));
}

#[test]
fn a_sign_is_plus_or_minus() {
    assert_eq!(sign(b"+1"), Ok((&b"1"[..], b'+')));
    assert_eq!(sign(b"-1"), Ok((&b"1"[..], b'-')));
    assert_eq!(sign(b"1"), Err(Error::InvalidCharacter.into()));
    assert_eq!(sign(b""), Err(ParseError::Incomplete));
}

#[test]
fn a_mantissa_needs_digits() {
    assert_eq!(mantissa(b"+.5x"), Ok((&b"x"[..], &b"+.5"[..])));
    // A point belongs to the number only with digits behind it.
    assert_eq!(mantissa(b"12."), Ok((&b"."[..], &b"12"[..])));
    assert_eq!(mantissa(b"12.x"), Ok((&b".x"[..], &b"12"[..])));
    assert_eq!(mantissa(b"12.5.5"), Ok((&b".5"[..], &b"12.5"[..])));
    assert_eq!(mantissa(b"."), Err(ParseError::Incomplete));
    assert_eq!(mantissa(b"+"), Err(ParseError::Incomplete));
    assert_eq!(mantissa(b""), Err(ParseError::Incomplete));
    assert_eq!(mantissa(b".x"), Err(Error::InvalidCharacter.into()));
    assert_eq!(mantissa(b"-x"), Err(Error::InvalidCharacter.into()));
}

#[test]
fn an_exponent_that_fails_is_left_in_the_input() {
    assert_eq!(
        decimal_numeric_program_data(b"12E"),
        Ok((&b"E"[..], Value::Decimal("12")))
    );
    assert_eq!(
        decimal_numeric_program_data(b"-1.5e+3,"),
        Ok((&b","[..], Value::Decimal("-1.5e+3")))
    );
    assert_eq!(
        decimal_numeric_program_data(b"1e+x"),
        Ok((&b"e+x"[..], Value::Decimal("1")))
    );
    assert_eq!(decimal_numeric_program_data(b"x"), Err(Error::InvalidCharacter.into()));
}

#[test]
fn a_number_in_another_radix_needs_a_digit() {
    assert_eq!(hexadecimal_numeric_program_data(b"#H"), Err(ParseError::Incomplete));
    assert_eq!(hexadecimal_numeric_program_data(b"#"), Err(ParseError::Incomplete));
    assert_eq!(hexadecimal_numeric_program_data(b""), Err(ParseError::Incomplete));
    assert_eq!(hexadecimal_numeric_program_data(b"#B1"), Err(Error::InvalidCharacter.into()));
    assert_eq!(hexadecimal_numeric_program_data(b"H1"), Err(Error::InvalidCharacter.into()));
    assert_eq!(
        hexadecimal_numeric_program_data(b"#HfFg"),
        Ok((&b"g"[..], Value::Hexadecimal("fF")))
    );
    assert_eq!(octal_numeric_program_data(b"#Q78"), Ok((&b"8"[..], Value::Octal("7"))));
}

#[test]
fn a_string_ends_at_the_next_quote_of_its_kind() {
    assert_eq!(
        string_program_data(b"\"Hello\" x"),
        Ok((&b" x"[..], Value::String("Hello")))
    );
    assert_eq!(
        string_program_data(b"'it \"is\"',"),
        Ok((&b","[..], Value::String("it \"is\"")))
    );
    assert_eq!(string_program_data(b"\"\""), Ok((&b""[..], Value::String(""))));
    assert_eq!(string_program_data(b"\"a\nb\""), Ok((&b""[..], Value::String("a\nb"))));
    assert_eq!(string_program_data(b"\"abc"), Err(ParseError::Incomplete));
    assert_eq!(string_program_data(b"\"abc'"), Err(ParseError::Incomplete));
    assert_eq!(string_program_data(b""), Err(ParseError::Incomplete));
    assert_eq!(string_program_data(b"abc\""), Err(Error::InvalidCharacter.into()));
    // The bytes between the quotes must be text.
    assert_eq!(string_program_data(b"\"\xff\""), Err(Error::InvalidCharacter.into()));
    assert_eq!(
        string_program_data("\"gr\u{fc}n\"".as_bytes()),
        Ok((&b""[..], Value::String("gr\u{fc}n")))
    );
}

#[test]
fn a_block_holds_as_many_bytes_as_it_says() {
    assert_eq!(
        arbitrary_block_program_data(b"#15ab\ncd\n"),
        Ok((&b"\n"[..], Value::Arbitrary(b"ab\ncd")))
    );
    assert_eq!(
        arbitrary_block_program_data(b"#210\x00\x01\x02\x03\x04\x05\x06\x07\x08\x09rest"),
        Ok((&b"rest"[..], Value::Arbitrary(b"\x00\x01\x02\x03\x04\x05\x06\x07\x08\x09")))
    );
    assert_eq!(arbitrary_block_program_data(b"#10"), Ok((&b""[..], Value::Arbitrary(b""))));
    assert_eq!(
        arbitrary_block_program_data(b"#3002ab"),
        Ok((&b""[..], Value::Arbitrary(b"ab")))
    );
    assert_eq!(arbitrary_block_program_data(b"#15ab\nc"), Err(ParseError::Incomplete));
    assert_eq!(arbitrary_block_program_data(b"#2"), Err(ParseError::Incomplete));
    assert_eq!(arbitrary_block_program_data(b"#21"), Err(ParseError::Incomplete));
    assert_eq!(arbitrary_block_program_data(b"#"), Err(ParseError::Incomplete));
    assert_eq!(arbitrary_block_program_data(b"#0"), Err(Error::InvalidCharacter.into()));
    assert_eq!(arbitrary_block_program_data(b"#2a"), Err(Error::InvalidCharacter.into()));
    assert_eq!(arbitrary_block_program_data(b"#21a"), Err(Error::InvalidCharacter.into()));
    assert_eq!(arbitrary_block_program_data(b"15ab"), Err(Error::InvalidCharacter.into()));
    assert_eq!(arbitrary_block_program_data(b"#9999999999"), Err(ParseError::Incomplete));
}

#[test]
fn an_argument_is_of_the_class_that_it_begins_like() {
    assert_eq!(argument(b"ON,"), Ok((&b","[..], Value::Characters("ON"))));
    assert_eq!(argument(b"-1.5,"), Ok((&b","[..], Value::Decimal("-1.5"))));
    assert_eq!(argument(b"#H7B "), Ok((&b" "[..], Value::Hexadecimal("7B"))));
    assert_eq!(argument(b"#B1111011 "), Ok((&b" "[..], Value::Binary("1111011"))));
    assert_eq!(argument(b"#Q173 "), Ok((&b" "[..], Value::Octal("173"))));
    assert_eq!(argument(b"'a' "), Ok((&b" "[..], Value::String("a"))));
    assert_eq!(argument(b"#12ab "), Ok((&b" "[..], Value::Arbitrary(b"ab"))));
    assert_eq!(argument(b",1"), Err(Error::InvalidCharacter.into()));
    assert_eq!(argument(b"\n"), Err(Error::InvalidCharacter.into()));
    assert_eq!(argument(b""), Err(ParseError::Incomplete));
    // An argument that may go on is incomplete, whatever could follow.
    assert_eq!(argument(b"#H"), Err(ParseError::Incomplete));
    assert_eq!(argument(b"+"), Err(ParseError::Incomplete));
}

#[test]
fn arguments_stop_at_what_is_no_separator() {
    let mut list: heapless::Vec<Value<'_>, MAX_ARGS> = heapless::Vec::new();
    assert_eq!(arguments(&mut list, b"1 , 'b',#HC ;x"), Ok((&b" ;x"[..], ())));
    assert_eq!(
        &list[..],
        &[Value::Decimal("1"), Value::String("b"), Value::Hexadecimal("C")]
    );
    let mut list: heapless::Vec<Value<'_>, MAX_ARGS> = heapless::Vec::new();
    assert_eq!(arguments(&mut list, b"1,,2"), Err(Error::InvalidCharacter.into()));
    assert_eq!(&list[..], &[Value::Decimal("1")]);
    let mut list: heapless::Vec<Value<'_>, MAX_ARGS> = heapless::Vec::new();
    assert_eq!(arguments(&mut list, b"1,"), Err(ParseError::Incomplete));
    let mut list: heapless::Vec<Value<'_>, MAX_ARGS> = heapless::Vec::new();
    assert_eq!(arguments(&mut list, b";"), Err(Error::InvalidCharacter.into()));
    assert!(list.is_empty());
}

#[test]
fn there_is_room_for_ten_arguments() {
    let mut list: heapless::Vec<Value<'_>, MAX_ARGS> = heapless::Vec::new();
    assert_eq!(arguments(&mut list, b"0,1,2,3,4,5,6,7,8,9\n"), Ok((&b"\n"[..], ())));
    assert_eq!(list.len(), 10);
    assert_eq!(list[9], Value::Decimal("9"));
    let mut list: heapless::Vec<Value<'_>, MAX_ARGS> = heapless::Vec::new();
    assert_eq!(
        arguments(&mut list, b"0,1,2,3,4,5,6,7,8,9,10\n"),
        Err(Error::UnexpectedNumberOfParameters.into())
    );
    assert_eq!(list.len(), 10);
    // A list that is full takes no first argument either.
    assert_eq!(
        arguments(&mut list, b"1\n"),
        Err(Error::UnexpectedNumberOfParameters.into())
    );
}

#[test]
fn too_many_arguments_make_the_call_fail() {
    let tree = tree();
    assert_eq!(
        parse(&tree, tree.root(), b"SYST:ERR 0,1,2,3,4,5,6,7,8,9,10\n"),
        Err(Error::InvalidCharacter.into())
    );
}

#[test]
fn a_header_is_looked_up_from_the_header_before() {
    let tree = tree();
    assert_eq!(
        compound_command_program_header(&tree, SYST_NODE, b"ERR?"),
        Ok((&b"?"[..], Header { node: ERR_NODE, parent: Some(SYST_NODE) }))
    );
    assert_eq!(
        compound_command_program_header(&tree, SYST_NODE, b":SYST : err "),
        Ok((&b" "[..], Header { node: ERR_NODE, parent: Some(SYST_NODE) }))
    );
    assert_eq!(
        compound_command_program_header(&tree, SYST_NODE, b"SYST:ERR"),
        Err(Error::UndefinedHeader.into())
    );
    assert_eq!(
        compound_command_program_header(&tree, tree.root(), b"SYST"),
        Ok((&b""[..], Header { node: SYST_NODE, parent: Some(0) }))
    );
    assert_eq!(
        compound_command_program_header(&tree, tree.root(), b"SYST:"),
        Err(ParseError::Incomplete)
    );
    assert_eq!(
        compound_command_program_header(&tree, tree.root(), b""),
        Err(ParseError::Incomplete)
    );
    assert_eq!(
        compound_command_program_header(&tree, tree.root(), b"*IDN"),
        Err(Error::InvalidCharacter.into())
    );
    // A common command is looked up from the root, whatever the header.
    assert_eq!(
        command_program_header(&tree, SYST_NODE, b"*idn?"),
        Ok((&b"?"[..], Header { node: IDN_NODE, parent: None }))
    );
    assert_eq!(command_program_header(&tree, SYST_NODE, b"*"), Err(ParseError::Incomplete));
    assert_eq!(
        command_program_header(&tree, tree.root(), b"?"),
        Err(Error::UndefinedHeader.into())
    );
}

#[test]
fn a_semicolon_ends_a_unit_and_keeps_the_header() {
    let tree = tree();
    assert_eq!(
        parse(&tree, tree.root(), b"SYST:ERR? ; ERR\n"),
        Ok((
            &b" ERR\n"[..],
            Some(CommandCall {
                node: ERR_NODE,
                query: true,
                args: heapless::Vec::new(),
                header: Some(SYST_NODE),
                terminated: false,
            })
        ))
    );
    assert_eq!(
        parse(&tree, SYST_NODE, b" ERR\n*IDN"),
        Ok((
            &b"*IDN"[..],
            Some(CommandCall {
                node: ERR_NODE,
                query: false,
                args: heapless::Vec::new(),
                header: Some(SYST_NODE),
                terminated: true,
            })
        ))
    );
}

#[test]
fn a_unit_of_white_space_is_no_call() {
    let tree = tree();
    assert_eq!(parse(&tree, tree.root(), b"\n"), Ok((&b""[..], None)));
    assert_eq!(parse(&tree, tree.root(), b" \t\r\nx"), Ok((&b"x"[..], None)));
    assert_eq!(parse(&tree, tree.root(), b" ;x"), Ok((&b"x"[..], None)));
    assert_eq!(parse(&tree, tree.root(), b"  "), Err(ParseError::Incomplete));
    assert_eq!(parse(&tree, tree.root(), b""), Err(ParseError::Incomplete));
}

#[test]
fn arguments_need_white_space_before_them() {
    let tree = tree();
    assert_eq!(
        parse(&tree, tree.root(), b"SYST:ERR,1\n"),
        Err(Error::InvalidCharacter.into())
    );
    assert_eq!(
        parse(&tree, tree.root(), b"SYST:ERR ,1\n"),
        Err(Error::InvalidCharacter.into())
    );
    assert_eq!(
        parse(&tree, tree.root(), b"SYST:ERR 1 2\n"),
        Err(Error::InvalidCharacter.into())
    );
    assert_eq!(
        parse(&tree, tree.root(), b"SYST:ERR ?\n"),
        Err(Error::InvalidCharacter.into())
    );
    assert_eq!(parse(&tree, tree.root(), b"SYST:ERR 1,"), Err(ParseError::Incomplete));
    assert_eq!(parse(&tree, tree.root(), b"SYST:ERR 'a"), Err(ParseError::Incomplete));
    assert_eq!(parse(&tree, tree.root(), b"SYST:ERR"), Err(ParseError::Incomplete));
}

#[test]
fn errors_are_soft_but_for_an_undefined_header() {
    assert_eq!(ParseError::from(()), ParseError::SoftError(None));
    assert_eq!(
        ParseError::from(Error::UndefinedHeader),
        ParseError::FatalError(Error::UndefinedHeader)
    );
    assert_eq!(
        ParseError::from(Error::SyntaxError),
        ParseError::SoftError(Some(Error::SyntaxError))
    );
    assert_eq!(Error::from(ParseError::SoftError(None)), Error::SyntaxError);
    assert_eq!(
        Error::from(ParseError::SoftError(Some(Error::InvalidSeparator))),
        Error::InvalidSeparator
    );
    assert_eq!(
        Error::from(ParseError::FatalError(Error::UndefinedHeader)),
        Error::UndefinedHeader
    );
    assert_eq!(Error::from(ParseError::Incomplete), Error::SyntaxError);
    let bad = [0xffu8];
    let invalid = core::str::from_utf8(&bad).unwrap_err();
    assert_eq!(ParseError::from(invalid), Error::InvalidCharacter.into());
}

#[test]
fn a_failed_unit_is_skipped_up_to_its_end() {
    assert_eq!(resynchronize(b"BAD:CMD;VAL?\n"), (&b"VAL?\n"[..], false));
    assert_eq!(resynchronize(b"BAD\nVAL?;"), (&b"VAL?;"[..], true));
    assert_eq!(resynchronize(b"BAD"), (&b""[..], false));
    assert_eq!(resynchronize(b""), (&b""[..], false));
    assert_eq!(resynchronize(b";"), (&b""[..], false));
}

#[test]
fn the_arguments_of_a_call_are_a_slice() {
    let tree = tree();
    let (_, call) = parse(&tree, tree.root(), b"SYST:ERR ON, #12ab\n").unwrap();
    let call = call.unwrap();
    assert_eq!(call.arguments(), &[Value::Characters("ON"), Value::Arbitrary(b"ab")]);
}
