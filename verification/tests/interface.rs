use microscpi::command::Command;
use microscpi::commands::{ErrorCommands, StandardCommands};
use microscpi::interface::Interface;
use microscpi::registration::CommandSet;
use microscpi::response::not_finite;
use microscpi::{CommandId, Error, ErrorQueue, Response, StaticErrorQueue, Tree, Value, Write};

#[derive(Debug, PartialEq)]
pub enum TestResult {
    ResetOk,
    IdnOk,
    TestA,
    TestAQ,
    Arbitrary(Vec<u8>),
}

pub struct TestInterface {
    errors: StaticErrorQueue<10>,
    result: Option<TestResult>,
}

impl ErrorCommands for TestInterface {
    type Queue = StaticErrorQueue<10>;

    fn error_queue(&mut self) -> &mut StaticErrorQueue<10> {
        &mut self.errors
    }
}

impl StandardCommands for TestInterface {}

const COMMANDS: [(&str, usize); 13] = [
    ("SYSTem:VERSion?", 0),
    ("SYSTem:ERRor:[NEXT]?", 0),
    ("SYSTem:ERRor:COUNt?", 0),
    ("*RST", 0),
    ("*IDN?", 0),
    ("VALue:STRing?", 0),
    ("[SYSTem]:TeST:A", 0),
    ("[SYSTem]:TeST:A?", 0),
    ("MATH:OPeration:MULTiply?", 2),
    ("MATH:OPeration:MULTiplyFloat?", 2),
    ("ARGument:ARBitrary", 1),
    ("MEASure:VOLTage", 1),
    ("MATH:OPeration:DIVide?", 2),
];

fn float(value: &Value<'_>) -> Result<f64, Error> {
    value.decimal_text()?.parse().or(Err(Error::NumericDataError))
}

fn write_float<W: Write>(value: f64, f: &mut W) -> Result<(), Error> {
    match not_finite(value.is_nan(), value.is_infinite(), value.is_sign_negative()) {
        Some(text) => text.write_response(f),
        None => f.write_str(&format!("{}", value)),
    }
}

impl Interface for TestInterface {
    fn execute_command<W: Write>(
        &mut self,
        command_id: CommandId,
        args: &[Value<'_>],
        response: &mut W,
    ) -> Result<(), Error> {
        match command_id {
            0 => self.system_version()?.write_response(response),
            1 => self.system_error_next()?.write_response(response),
            2 => self.system_error_count()?.write_response(response),
            3 => {
                self.result = Some(TestResult::ResetOk);
                Ok(())
            }
            4 => {
                self.result = Some(TestResult::IdnOk);
                "MICROSCPI,TEST,1,1.0".write_response(response)
            }
            5 => "Hello World".write_response(response),
            6 => {
                self.result = Some(TestResult::TestA);
                Ok(())
            }
            7 => {
                self.result = Some(TestResult::TestAQ);
                Ok(())
            }
            8 => {
                let a: u64 = args[0].try_into()?;
                let b: u64 = args[1].try_into()?;
                (a * b).write_response(response)
            }
            9 => write_float(float(&args[0])? * float(&args[1])?, response),
            10 => {
                let value: &[u8] = args[0].try_into()?;
                self.result = Some(TestResult::Arbitrary(value.into()));
                Ok(())
            }
            11 => {
                let value = float(&args[0])?;
                if !(0.0..=10.0).contains(&value) {
                    return Err(Error::DataOutOfRange);
                }
                Ok(())
            }
            12 => write_float(float(&args[0])? / float(&args[1])?, response),
            _ => Err(Error::UndefinedHeader),
        }
    }
}

fn setup() -> (TestInterface, Tree, Vec<u8>) {
    let interface = TestInterface {
        errors: StaticErrorQueue::new(),
        result: None,
    };
    let mut set = CommandSet::new();
    for (notation, arity) in COMMANDS {
        set.push(Command::try_from(notation).unwrap(), arity);
    }
    (interface, set.build_tree().unwrap(), Vec::new())
}

#[test]
fn test_idn() {
    let (mut interface, tree, mut output) = setup();
    interface.run(&tree, b"*IDN?\n", &mut output);
    assert_eq!(interface.result, Some(TestResult::IdnOk));
}

#[test]
fn test_rst() {
    let (mut interface, tree, mut output) = setup();
    interface.run(&tree, b"*RST\n", &mut output);
    assert_eq!(interface.result, Some(TestResult::ResetOk));
}

#[test]
fn test_a_short() {
    let (mut interface, tree, mut output) = setup();
    interface.run(&tree, b"TST:A\n", &mut output);
    assert_eq!(interface.result, Some(TestResult::TestA));
}

#[test]
fn test_a_long() {
    let (mut interface, tree, mut output) = setup();
    interface.run(&tree, b"SYSTEM:TEST:A\r\n", &mut output);
    assert_eq!(interface.result, Some(TestResult::TestA));
}

#[test]
fn test_system_test_aq() {
    let (mut interface, tree, mut output) = setup();
    interface.run(&tree, b"SYST:TEST:A?\n", &mut output);
    assert_eq!(interface.result, Some(TestResult::TestAQ));
}

#[test]
fn test_value_string() {
    let (mut interface, tree, mut output) = setup();

    interface.run(&tree, b"VAL:STR?\n", &mut output);

    assert_eq!(output, b"\"Hello World\"\n");
}

#[test]
fn test_value_arbitrary() {
    let (mut interface, tree, mut output) = setup();

    let input = [
        65, 82, 71, 58, 65, 82, 66, 32, 35, 50, 51, 50, 57, 14, 100, 57, 14, 116, 57, 14, 132, 57,
        14, 147, 57, 14, 163, 57, 14, 179, 57, 14, 195, 57, 14, 210, 57, 14, 227, 57, 14, 243, 57,
        15, 10, 83, 89, 83, 84, 58, 69, 82, 82, 58, 78, 69, 88, 84, 63, 10,
    ];

    let remaining = interface.run(&tree, &input, &mut output);

    assert_eq!(interface.errors.pop_error(), None);
    assert_eq!(remaining, &[]);

    assert_eq!(
        interface.result,
        Some(TestResult::Arbitrary(Vec::from(&[
            57, 14, 100, 57, 14, 116, 57, 14, 132, 57, 14, 147, 57, 14, 163, 57, 14, 179, 57, 14,
            195, 57, 14, 210, 57, 14, 227, 57, 14, 243, 57, 15
        ])))
    );

    assert_eq!(output, b"0,\"\"\n");
}

#[test]
fn test_terminators() {
    let (mut interface, tree, mut output) = setup();

    assert_eq!(interface.run(&tree, b"*IDN?\n", &mut output), &[][..]);
    assert_eq!(interface.run(&tree, b"*IDN?\r\n", &mut output), &[][..]);
    assert_eq!(interface.run(&tree, b"*IDN?\n\r", &mut output), &[b'\r'][..]);
}

#[test]
fn test_invalid_command() {
    let (mut interface, tree, mut output) = setup();

    interface.run(&tree, b"*IDN\n", &mut output);
    assert_eq!(
        interface.errors.pop_error(),
        Some(Error::UndefinedHeader)
    );
    assert_eq!(interface.errors.pop_error(), None);

    interface.run(&tree, b"FOO\n", &mut output);
    assert_eq!(
        interface.errors.pop_error(),
        Some(Error::UndefinedHeader)
    );
    assert_eq!(interface.errors.pop_error(), None);

    interface.run(&tree, b"FOO:BAR\n", &mut output);
    assert_eq!(
        interface.errors.pop_error(),
        Some(Error::UndefinedHeader)
    );
    assert_eq!(interface.errors.pop_error(), None);

    interface.run(&tree, b"SYST:FOO\n", &mut output);
    assert_eq!(
        interface.errors.pop_error(),
        Some(Error::UndefinedHeader)
    );
    assert_eq!(interface.errors.pop_error(), None);
}

#[test]
fn test_invalid_character() {
    let (mut interface, tree, mut output) = setup();

    interface.run(&tree, "*IDN!\n".as_bytes(), &mut output);
    assert_eq!(
        interface.errors.pop_error(),
        Some(Error::InvalidCharacter)
    );
}

#[test]
fn test_math_multiply() {
    let (mut interface, tree, mut output) = setup();
    interface.run(&tree, b"MATH:OP:MULT? 7,6\n", &mut output);
    assert_eq!(output, b"42\n");
}

#[test]
fn test_math_multiply_float() {
    let (mut interface, tree, mut output) = setup();
    interface.run(&tree, b"MATH:OP:MULTF? 23.42,42.23\n", &mut output);
    assert_eq!(output, b"989.0266\n");
}

#[test]
fn test_math_multiply_hexadecimal() {
    let (mut interface, tree, mut output) = setup();
    interface.run(&tree, b"MATH:OP:MULT? #H7B,#Q710\n", &mut output);
    assert_eq!(output, b"56088\n");
}

#[test]
fn test_invalid_arguments() {
    let (mut interface, tree, mut output) = setup();

    interface.run(&tree, b"SYSTEM:TEST:A 123 456\n", &mut output);
    assert_eq!(
        interface.errors.pop_error(),
        Some(Error::InvalidCharacter)
    );

    interface.run(&tree, b"SYSTEM:TEST:A 123,,456\n", &mut output);
    assert_eq!(
        interface.errors.pop_error(),
        Some(Error::InvalidCharacter)
    );

    interface.run(&tree, b"SYSTEM:TEST:A ,123\n", &mut output);
    assert_eq!(
        interface.errors.pop_error(),
        Some(Error::InvalidCharacter)
    );

    interface.run(&tree, b"SYSTEM:TEST:A,123\n", &mut output);
    assert_eq!(
        interface.errors.pop_error(),
        Some(Error::InvalidCharacter)
    );

    assert_eq!(interface.errors.pop_error(), None);
}

#[test]
fn test_next_error() {
    let (mut interface, tree, mut output) = setup();

    interface.errors.push_error(Error::SystemError);

    interface.run(&tree, b"SYST:ERR:NEXT?\n", &mut output);

    assert_eq!(output, b"-310,\"System error\"\n");

    output.clear();

    interface.run(&tree, b"SYST:ERR:NEXT?\n", &mut output);

    assert_eq!(output, b"0,\"\"\n");
}

#[test]
fn test_value_string_with_whitespace() {
    let (mut interface, tree, mut output) = setup();
    interface.run(&tree, b"  VAL:STR?  \n", &mut output);
    assert_eq!(output, b"\"Hello World\"\n");
}

#[test]
fn test_multiple_commands() {
    let (mut interface, tree, mut output) = setup();
    interface.run(&tree, b"*RST\n*IDN?\n", &mut output);
    assert_eq!(interface.result, Some(TestResult::IdnOk));
    assert_eq!(output, b"\"MICROSCPI,TEST,1,1.0\"\n");
}

#[test]
fn test_empty_input() {
    let (mut interface, tree, mut output) = setup();
    let remaining = interface.run(&tree, b"", &mut output);
    assert_eq!(remaining, &[]);

    let remaining = interface.run(&tree, b"\n", &mut output);
    assert_eq!(remaining, &[]);

    let remaining = interface.run(&tree, b" \n", &mut output);
    assert_eq!(remaining, &[]);

    let remaining = interface.run(&tree, b"  \n  \n\n  ", &mut output);
    assert_eq!(remaining, &b"  "[..]);
    assert_eq!(interface.errors.error_count(), 0);
    assert_eq!(output, b"");
}

#[test]
fn a_unit_that_fails_does_not_stop_the_units_behind_it() {
    let (mut interface, tree, mut output) = setup();
    let remaining = interface.run(&tree, b"BAD:CMD;VALue:STRing?\n", &mut output);
    assert_eq!(remaining, &[]);
    assert_eq!(interface.errors.pop_error(), Some(Error::UndefinedHeader));
    assert_eq!(interface.errors.pop_error(), None);
    assert_eq!(output, b"\"Hello World\"\n");
}

#[test]
fn a_line_that_fails_does_not_stop_the_lines_behind_it() {
    let (mut interface, tree, mut output) = setup();
    let remaining = interface.run(&tree, b"VAL:STR!\r\n*IDN?\nVAL:STR", &mut output);
    assert_eq!(remaining, b"VAL:STR");
    assert_eq!(interface.errors.pop_error(), Some(Error::InvalidCharacter));
    assert_eq!(interface.errors.pop_error(), None);
    assert_eq!(output, b"\"MICROSCPI,TEST,1,1.0\"\n");
}

#[test]
fn the_identification_is_sent_in_quotes() {
    let (mut interface, tree, mut output) = setup();
    interface.run(&tree, b"*IDN?\n", &mut output);
    assert_eq!(output, b"\"MICROSCPI,TEST,1,1.0\"\n");
}

#[test]
fn a_value_out_of_range_is_queued_and_nothing_is_sent() {
    let (mut interface, tree, mut output) = setup();
    interface.run(&tree, b"MEASure:VOLTage 11\n", &mut output);
    assert_eq!(interface.errors.pop_error(), Some(Error::DataOutOfRange));
    assert_eq!(interface.errors.pop_error(), None);
    assert_eq!(output, b"");
    interface.run(&tree, b"MEAS:VOLT 10\n", &mut output);
    assert_eq!(interface.errors.pop_error(), None);
    assert_eq!(output, b"");
}

#[test]
fn a_product_of_whole_numbers_is_sent_without_a_point() {
    let (mut interface, tree, mut output) = setup();
    interface.run(&tree, b"MATH:OP:MULTF? 23, 42\n", &mut output);
    assert_eq!(output, b"966\n");
}

#[test]
fn what_is_not_a_number_has_a_text_of_its_own() {
    let (mut interface, tree, mut output) = setup();
    interface.run(&tree, b"MATH:OP:DIV? 0, 0\n", &mut output);
    assert_eq!(output, b"9.91E+37\n");
    output.clear();
    interface.run(&tree, b"MATH:OP:DIV? 1, 0;DIV? -1, 0\n", &mut output);
    assert_eq!(output, b"9.9E+37\n-9.9E+37\n");
    assert_eq!(interface.errors.pop_error(), None);
}

#[test]
fn the_number_of_arguments_is_checked_before_the_handler_runs() {
    let (mut interface, tree, mut output) = setup();
    interface.run(&tree, b"MATH:OP:MULT? 7\n", &mut output);
    assert_eq!(interface.errors.pop_error(), Some(Error::UnexpectedNumberOfParameters));
    interface.run(&tree, b"MATH:OP:MULT? 7,6,5\n", &mut output);
    assert_eq!(interface.errors.pop_error(), Some(Error::UnexpectedNumberOfParameters));
    interface.run(&tree, b"*RST 1\n", &mut output);
    assert_eq!(interface.errors.pop_error(), Some(Error::UnexpectedNumberOfParameters));
    assert_eq!(interface.result, None);
    assert_eq!(interface.errors.pop_error(), None);
    assert_eq!(output, b"");
}

#[test]
fn the_error_of_a_handler_is_queued() {
    let (mut interface, tree, mut output) = setup();
    interface.run(&tree, b"MATH:OP:MULT? ON,1\n", &mut output);
    assert_eq!(interface.errors.pop_error(), Some(Error::DataTypeError));
    interface.run(&tree, b"MATH:OP:MULT? 1.5,1\n", &mut output);
    assert_eq!(interface.errors.pop_error(), Some(Error::NumericDataError));
    assert_eq!(output, b"");
}

#[test]
fn a_semicolon_keeps_the_header_and_a_newline_drops_it() {
    let (mut interface, tree, mut output) = setup();
    interface.run(&tree, b"SYST:ERR:NEXT?;COUN?\n", &mut output);
    assert_eq!(output, b"0,\"\"\n0\n");
    assert_eq!(interface.errors.pop_error(), None);
    output.clear();
    interface.run(&tree, b"SYST:ERR:NEXT?\nCOUN?\n", &mut output);
    assert_eq!(output, b"0,\"\"\n");
    assert_eq!(interface.errors.pop_error(), Some(Error::UndefinedHeader));
    output.clear();
    // A colon in front asks for the root, and so does a common command.
    interface.run(&tree, b"SYST:ERR:NEXT?;:VAL:STR?;*IDN?;STR?\n", &mut output);
    assert_eq!(
        output,
        b"0,\"\"\n\"Hello World\"\n\"MICROSCPI,TEST,1,1.0\"\n\"Hello World\"\n"
    );
    assert_eq!(interface.errors.pop_error(), None);
}

#[test]
fn the_version_and_the_number_of_errors() {
    let (mut interface, tree, mut output) = setup();
    interface.run(&tree, b"FOO\nBAR\nSYST:VERS?;ERR:COUN?\n", &mut output);
    assert_eq!(output, b"1999.0\n2\n");
}

#[test]
fn one_byte_more_at_a_time_gives_the_same_response() {
    let input = b"*IDN?\nMATH:OP:MULT? 7,6;MULTF? 1.5,2\nARG:ARB #14a\n;b\nBAD\nVAL:STR?\n";
    let (mut interface, tree, mut whole) = setup();
    assert_eq!(interface.run(&tree, input, &mut whole), &[]);
    let whole_errors = interface.errors.error_count();

    let (mut interface, tree, mut pieces) = setup();
    let mut start = 0;
    for end in 1..=input.len() {
        if input[end - 1] != b'\n' {
            continue;
        }
        let rest = interface.run(&tree, &input[start..end], &mut pieces);
        start = end - rest.len();
    }
    assert_eq!(start, input.len());
    assert_eq!(pieces, whole);
    assert_eq!(interface.errors.error_count(), whole_errors);
    assert_eq!(interface.result, Some(TestResult::Arbitrary(b"a\n;b".to_vec())));
}
