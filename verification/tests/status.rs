use microscpi::commands::next_error;
use microscpi::registers::{EventStatus, StatusByte, StatusRegisters};
use microscpi::{
    Characters, Context, Error, ErrorCommands, ErrorHandler, ErrorQueue, StandardCommands,
    StaticErrorQueue, StatusCommands, SCPI_STD_VERSION,
};

struct Device {
    errors: StaticErrorQueue<4>,
    registers: StatusRegisters,
}

impl ErrorCommands for Device {
    type Queue = StaticErrorQueue<4>;

    fn error_queue(&mut self) -> &mut StaticErrorQueue<4> {
        &mut self.errors
    }
}

impl StatusCommands for Device {
    fn status_registers(&mut self) -> &mut StatusRegisters {
        &mut self.registers
    }
}

fn device() -> Device {
    Device { errors: StaticErrorQueue::new(), registers: StatusRegisters::default() }
}

#[test]
fn the_registers_of_a_device_that_was_switched_on() {
    let registers = StatusRegisters::default();
    assert_eq!(registers.event_status.bits(), 0x80);
    assert_eq!(registers.event_status_enable.bits(), 0xff);
    assert_eq!(registers.status_byte_enable.bits(), 0xfc);
    assert_eq!(EventStatus::POWER_ON, 1 << 7);
    assert_eq!(EventStatus::OPERATION_COMPLETE, 1);
    assert_eq!(StatusByte::STANDARD_EVENT, 1 << 5);
    assert_eq!(StatusByte::ERROR_EVENT_QUEUE, 1 << 2);
}

#[test]
fn the_event_status_register_is_cleared_by_reading_it() {
    let mut device = device();
    assert_eq!(device.event_status_register(), Ok(0x80));
    assert_eq!(device.event_status_register(), Ok(0));
    assert_eq!(device.operation_complete(), Ok(true));
    assert_eq!(device.event_status_register(), Ok(0x01));
    assert_eq!(device.set_operation_complete(), Ok(()));
    assert_eq!(device.set_event_status_enable(0xf0), Ok(()));
    assert_eq!(device.event_status_enable(), Ok(0xf0));
    // The bit is set, but it is not enabled.
    assert_eq!(device.event_status_register(), Ok(0));
    assert_eq!(device.registers.event_status.bits(), 0);
}

#[test]
fn the_status_byte_tells_of_errors_and_events() {
    let mut device = device();
    assert_eq!(device.status_byte(), Ok(0x20));
    // Reading the status byte clears nothing.
    assert_eq!(device.status_byte(), Ok(0x20));
    device.handle_error(Error::SyntaxError);
    assert_eq!(device.status_byte(), Ok(0x24));
    assert_eq!(device.event_status_register(), Ok(0x80));
    assert_eq!(device.status_byte(), Ok(0x04));
    assert_eq!(device.clear_event_status(), Ok(()));
    assert_eq!(device.status_byte(), Ok(0));
    assert_eq!(device.system_error_count(), Ok(0));
    assert_eq!(device.set_status_byte_enable(0x30), Ok(()));
    assert_eq!(device.status_byte_enable(), Ok(0x30));
}

#[test]
fn flags_are_set_and_cleared() {
    let mut status = EventStatus::empty();
    status.set(EventStatus::COMMAND_ERROR | EventStatus::QUERY_ERROR, true);
    assert_eq!(status.bits(), 0x24);
    assert!(status.contains(EventStatus::QUERY_ERROR));
    assert!(!status.contains(EventStatus::QUERY_ERROR | EventStatus::POWER_ON));
    status.set(EventStatus::QUERY_ERROR, false);
    assert_eq!(status, EventStatus::from_bits_retain(0x20));
    assert_eq!(status.intersection(EventStatus::all()), status);
    assert_eq!(status.intersection(EventStatus::from_bits_retain(0x0f)).bits(), 0);
    let mut byte = StatusByte::empty();
    byte.insert(StatusByte::MESSAGE_AVAILABLE);
    byte.insert(StatusByte::REQUEST_SERVICE);
    assert_eq!(byte.bits(), 0x50);
    assert_eq!(StatusByte::all().bits(), 0xff);
    assert_eq!(StatusByte::from_bits_retain(3).bits(), 3);
}

#[test]
fn the_next_error_leaves_the_queue() {
    let mut queue: StaticErrorQueue<2> = StaticErrorQueue::new();
    assert_eq!(next_error(&mut queue), (0, ""));
    queue.push_error(Error::DataOutOfRange);
    queue.push_error(Error::Custom(5, "Five"));
    assert_eq!(next_error(&mut queue), (-222, "Data out of range"));
    assert_eq!(next_error(&mut queue), (5, "Five"));
    assert_eq!(next_error(&mut queue), (0, ""));
}

#[test]
fn a_context_answers_the_standard_commands() {
    let mut context = Context::new();
    assert_eq!(context.system_version(), Ok(Characters("1999.0")));
    assert_eq!(SCPI_STD_VERSION, "1999.0");
    assert_eq!(context.system_error_count(), Ok(0));
    assert_eq!(context.system_error_next(), Ok((0, "")));
    context.push_error(Error::SystemError);
    context.handle_error(Error::HardwareError);
    assert_eq!(context.system_error_count(), Ok(2));
    assert_eq!(context.system_error_next(), Ok((-310, "System error")));
    assert_eq!(context.pop_error(), Some(Error::HardwareError));
    assert_eq!(context.pop_error(), None);
    assert_eq!(context.status_byte(), Ok(0x20));
    assert_eq!(context.event_status_register(), Ok(0x80));
    for _ in 0..12 {
        context.push_error(Error::SyntaxError);
    }
    assert_eq!(context.status_byte(), Ok(0x04));
    assert_eq!(context.system_error_count(), Ok(10));
    for _ in 0..9 {
        assert_eq!(context.pop_error(), Some(Error::SyntaxError));
    }
    assert_eq!(context.pop_error(), Some(Error::QueueOverflow));
}
