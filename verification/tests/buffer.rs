use microscpi::buffer::InputBuffer;
use microscpi::command::Command;
use microscpi::registration::CommandSet;
use microscpi::{
    CommandId, Error, ErrorHandler, Interface, Interpreter, Response, Tree, Value, Write,
};

/// Answers `ECHO? <n>` with the number, and collects the errors.
struct Echo {
    errors: Vec<Error>,
    blocks: Vec<Vec<u8>>,
}

impl ErrorHandler for Echo {
    fn handle_error(&mut self, error: Error) {
        self.errors.push(error);
    }
}

impl Interface for Echo {
    fn execute_command<W: Write>(
        &mut self,
        command_id: CommandId,
        args: &[Value<'_>],
        response: &mut W,
    ) -> Result<(), Error> {
        match command_id {
            0 => {
                let n: u32 = args[0].try_into()?;
                n.write_response(response)
            }
            1 => {
                let bytes: &[u8] = args[0].try_into()?;
                self.blocks.push(bytes.to_vec());
                Ok(())
            }
            2 => "Hello".write_response(response),
            _ => Err(Error::UndefinedHeader),
        }
    }
}

fn setup() -> (Echo, Tree) {
    let mut set = CommandSet::new();
    set.push(Command::try_from("ECHO?").unwrap(), 1);
    set.push(Command::try_from("DATA:BLOCk").unwrap(), 1);
    set.push(Command::try_from("DATA:HELLo?").unwrap(), 0);
    (Echo { errors: Vec::new(), blocks: Vec::new() }, set.build_tree().unwrap())
}

#[test]
fn a_line_is_run_when_its_newline_has_come() {
    let (mut echo, tree) = setup();
    let mut buffer: InputBuffer<32> = InputBuffer::new();
    let mut output: Vec<u8> = Vec::new();
    assert_eq!(buffer.free(), 32);
    buffer.feed(&mut echo, &tree, b"ECHO? 1", &mut output);
    assert_eq!(output, b"");
    assert_eq!(buffer.free(), 25);
    buffer.feed(&mut echo, &tree, b"2\nECHO", &mut output);
    assert_eq!(output, b"12\n");
    assert_eq!(buffer.free(), 28);
    buffer.feed(&mut echo, &tree, b"? 3\n\nECHO? 4\n", &mut output);
    assert_eq!(output, b"12\n3\n4\n");
    assert_eq!(buffer.free(), 32);
    assert!(echo.errors.is_empty());
}

#[test]
fn one_byte_at_a_time_gives_the_same_output() {
    let input = b"ECHO? 1\nDATA:HELL?;BLOC #14a\n;b\nBAD\n  \nECHO? #H10;ECHO? 2\nECH";
    let (mut echo, tree) = setup();
    let mut buffer: InputBuffer<128> = InputBuffer::new();
    let mut whole: Vec<u8> = Vec::new();
    buffer.feed(&mut echo, &tree, input, &mut whole);
    assert_eq!(whole, b"1\n\"Hello\"\n16\n2\n");
    assert_eq!(echo.blocks, vec![b"a\n;b".to_vec()]);
    assert_eq!(echo.errors, vec![Error::UndefinedHeader]);
    assert_eq!(buffer.free(), 125);

    let (mut echo, tree) = setup();
    let mut buffer: InputBuffer<128> = InputBuffer::new();
    let mut pieces: Vec<u8> = Vec::new();
    for byte in input {
        buffer.feed(&mut echo, &tree, &[*byte], &mut pieces);
    }
    assert_eq!(pieces, whole);
    assert_eq!(echo.blocks, vec![b"a\n;b".to_vec()]);
    assert_eq!(echo.errors, vec![Error::UndefinedHeader]);
    assert_eq!(buffer.free(), 125);
}

#[test]
fn a_full_buffer_drops_what_it_holds() {
    let (mut echo, tree) = setup();
    let mut buffer: InputBuffer<8> = InputBuffer::new();
    let mut output: Vec<u8> = Vec::new();
    buffer.feed(&mut echo, &tree, b"ECHO? 12", &mut output);
    assert_eq!(buffer.free(), 8);
    buffer.feed(&mut echo, &tree, b"3\n", &mut output);
    // The start of the line is gone: `3` is no command.
    assert_eq!(output, b"");
    assert_eq!(echo.errors, vec![Error::UndefinedHeader]);
    assert_eq!(buffer.free(), 8);
    // A line that fills the buffer is still run.
    buffer.feed(&mut echo, &tree, b"ECHO? 7", &mut output);
    assert_eq!(buffer.free(), 1);
    buffer.feed(&mut echo, &tree, b"\n", &mut output);
    assert_eq!(output, b"7\n");
    assert_eq!(buffer.free(), 8);
    buffer.feed(&mut echo, &tree, b"ECHO? 8\n", &mut output);
    assert_eq!(output, b"7\n8\n");
    // What is behind the line is dropped with the buffer.
    buffer.feed(&mut echo, &tree, b"ECHO? 9\nE", &mut output);
    assert_eq!(output, b"7\n8\n9\n");
    assert_eq!(buffer.free(), 8);
    buffer.feed(&mut echo, &tree, b"CHO? 5\n", &mut output);
    assert_eq!(output, b"7\n8\n9\n");
    assert_eq!(echo.errors, vec![Error::UndefinedHeader, Error::UndefinedHeader]);
}

#[test]
fn the_steps_of_the_buffer() {
    let mut buffer: InputBuffer<16> = InputBuffer::new();
    buffer.push(b"AB\nCD");
    assert_eq!(buffer.next_line(), Some(&b"AB\n"[..]));
    // The run left the whole line: it waits for the next newline.
    buffer.advance(3, 0);
    assert_eq!(buffer.next_line(), None);
    buffer.finish();
    assert_eq!(buffer.free(), 11);
    buffer.push(b"\nEF\n");
    assert_eq!(buffer.next_line(), Some(&b"AB\nCD\n"[..]));
    buffer.advance(2, 0);
    assert_eq!(buffer.next_line(), Some(&b"D\nEF\n"[..]));
    buffer.advance(0, 0);
    assert_eq!(buffer.next_line(), None);
    buffer.finish();
    assert_eq!(buffer.free(), 16);
}

#[test]
fn an_interpreter_keeps_the_header_between_two_pieces() {
    let (echo, tree) = setup();
    let mut interpreter = Interpreter::new(echo, tree);
    let mut output: Vec<u8> = Vec::new();
    assert_eq!(interpreter.parse_and_execute(b"DATA:HELL?;", &mut output), b"");
    assert_eq!(interpreter.parse_and_execute(b"HELL?\nDATA:HELL", &mut output), b"DATA:HELL");
    assert_eq!(output, b"\"Hello\"\n\"Hello\"\n");
    assert_eq!(interpreter.parse_and_execute(b"DATA:HELL?\nHELL?\n", &mut output), b"");
    assert_eq!(output, b"\"Hello\"\n\"Hello\"\n\"Hello\"\n");
    assert_eq!(interpreter.interface.errors, vec![Error::UndefinedHeader]);
    assert_eq!(interpreter.parse_and_execute(b"DATA:HELL?;", &mut output), b"");
    interpreter.reset();
    assert_eq!(interpreter.parse_and_execute(b"HELL?\n", &mut output), b"");
    assert_eq!(
        interpreter.interface.errors,
        vec![Error::UndefinedHeader, Error::UndefinedHeader]
    );
}

#[test]
fn an_interpreter_executes_a_call() {
    let (echo, tree) = setup();
    let (_, call) = microscpi::parser::parse(&tree, 0, b"ECHO? 5\n").unwrap();
    let (_, bad) = microscpi::parser::parse(&tree, 0, b"ECHO?\n").unwrap();
    let (_, none) = microscpi::parser::parse(&tree, 0, b"ECHO 5\n").unwrap();
    let mut interpreter = Interpreter::new(echo, tree);
    let mut output: Vec<u8> = Vec::new();
    assert_eq!(interpreter.execute(&call.unwrap(), &mut output), Ok(()));
    assert_eq!(output, b"5\n");
    assert_eq!(
        interpreter.execute(&bad.unwrap(), &mut output),
        Err(Error::UnexpectedNumberOfParameters)
    );
    assert_eq!(interpreter.execute(&none.unwrap(), &mut output), Err(Error::UndefinedHeader));
    assert_eq!(output, b"5\n");
}
