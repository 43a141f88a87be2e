use microscpi::{Error, ErrorQueue, StaticErrorQueue};

#[test]
fn test_push_and_pop_error() {
    let mut queue: StaticErrorQueue<3> = StaticErrorQueue::new();
    assert_eq!(queue.error_count(), 0);

    queue.push_error(Error::ExpressionError);
    assert_eq!(queue.error_count(), 1);

    let error = queue.pop_error();
    assert_eq!(error, Some(Error::ExpressionError));
    assert_eq!(queue.error_count(), 0);
}

#[test]
fn test_queue_overflow() {
    let mut queue: StaticErrorQueue<2> = StaticErrorQueue::new();
    queue.push_error(Error::CalibrationFailed);
    queue.push_error(Error::HardwareError);
    assert_eq!(queue.error_count(), 2);

    // This push should cause an overflow
    queue.push_error(Error::DataTypeError);
    assert_eq!(queue.error_count(), 2);

    // The last error should be QueueOverflow
    let error = queue.pop_error();
    assert_eq!(error, Some(Error::CalibrationFailed));
    let error = queue.pop_error();
    assert_eq!(error, Some(Error::QueueOverflow));
}

#[test]
fn test_pop_empty_queue() {
    let mut queue: StaticErrorQueue<2> = StaticErrorQueue::new();
    let error = queue.pop_error();
    assert_eq!(error, None);
}

#[test]
fn test_error_count() {
    let mut queue: StaticErrorQueue<3> = StaticErrorQueue::new();
    assert_eq!(queue.error_count(), 0);

    queue.push_error(Error::BlockDataNotAllowed);
    assert_eq!(queue.error_count(), 1);

    queue.push_error(Error::OutOfMemory);
    assert_eq!(queue.error_count(), 2);

    queue.pop_error();
    assert_eq!(queue.error_count(), 1);

    queue.pop_error();
    assert_eq!(queue.error_count(), 0);
}

#[test]
fn errors_leave_in_the_order_in_which_they_came() {
    let mut queue: StaticErrorQueue<4> = StaticErrorQueue::default();
    let errors = [
        Error::SyntaxError,
        Error::Custom(12, "Out of paper"),
        Error::TimeoutError,
        Error::QueryError,
    ];
    for error in errors {
        queue.push_error(error);
    }
    assert_eq!(queue.error_count(), 4);
    // One more replaces the last, and the number stays.
    queue.push_error(Error::HardwareError);
    queue.push_error(Error::HardwareError);
    assert_eq!(queue.error_count(), 4);
    assert_eq!(queue.pop_error(), Some(Error::SyntaxError));
    assert_eq!(queue.pop_error(), Some(Error::Custom(12, "Out of paper")));
    assert_eq!(queue.pop_error(), Some(Error::TimeoutError));
    assert_eq!(queue.pop_error(), Some(Error::QueueOverflow));
    assert_eq!(queue.pop_error(), None);
}

#[test]
fn a_queue_without_room_holds_nothing() {
    let mut queue: StaticErrorQueue<0> = StaticErrorQueue::new();
    queue.push_error(Error::SyntaxError);
    assert_eq!(queue.error_count(), 0);
    assert_eq!(queue.pop_error(), None);
}

#[test]
fn clear_empties_the_queue() {
    let mut queue: StaticErrorQueue<2> = StaticErrorQueue::new();
    queue.push_error(Error::SyntaxError);
    queue.push_error(Error::SyntaxError);
    queue.clear();
    assert_eq!(queue.error_count(), 0);
    queue.push_error(Error::SystemError);
    assert_eq!(queue.pop_error(), Some(Error::SystemError));
}

#[test]
fn every_error_has_its_number_and_message() {
    assert_eq!(Error::CommandError.number(), -100);
    assert_eq!(Error::InvalidCharacter.number(), -101);
    assert_eq!(Error::UndefinedHeader.number(), -113);
    assert_eq!(Error::UndefinedHeader.message(), "Undefined header");
    assert_eq!(Error::ParameterError.number(), -220);
    assert_eq!(Error::TriggerError.number(), -210);
    assert_eq!(Error::DataOutOfRange.number(), -222);
    assert_eq!(Error::DataOutOfRange.message(), "Data out of range");
    assert_eq!(Error::QueueOverflow.number(), -350);
    assert_eq!(Error::QueueOverflow.message(), "Queue overflow");
    assert_eq!(Error::QueryError.number(), -400);
    assert_eq!(Error::QueryError.message(), "Query error");
    assert_eq!(Error::SyntaxError.message(), "Syntax error");
    assert_eq!(Error::UnexpectedNumberOfParameters.number(), -115);
    assert_eq!(
        Error::UnexpectedNumberOfParameters.message(),
        "Unexpected number of parameters"
    );
    assert_eq!(Error::SelfTestFailed.message(), "Self-test failed");
    assert_eq!(Error::DeviceSpecificError.message(), "Device-specific error");
    assert_eq!(Error::GetNotAllowed.message(), "GET not allowed");
    assert_eq!(Error::CharacterNotAllowed.message(), "Character data not allowed");
    assert_eq!(Error::TimeoutError.message(), "Time out error");
    assert_eq!(Error::Custom(-42, "Custom").number(), -42);
    assert_eq!(Error::Custom(-42, "Custom").message(), "Custom");
}

#[test]
fn a_fixed_queue_keeps_order_and_marks_an_overflow() {
    let mut queue = microscpi::FixedErrorQueue::default();
    assert_eq!(queue.error_count(), 0);
    assert_eq!(queue.pop_error(), None);
    queue.push_error(Error::Custom(1, "One"));
    for _ in 1..microscpi::MAX_ERRORS {
        queue.push_error(Error::DataOutOfRange);
    }
    assert_eq!(queue.error_count(), microscpi::MAX_ERRORS);
    queue.push_error(Error::SyntaxError);
    queue.push_error(Error::SystemError);
    assert_eq!(queue.error_count(), microscpi::MAX_ERRORS);
    assert_eq!(queue.pop_error(), Some(Error::Custom(1, "One")));
    for _ in 2..microscpi::MAX_ERRORS {
        assert_eq!(queue.pop_error(), Some(Error::DataOutOfRange));
    }
    assert_eq!(queue.pop_error(), Some(Error::QueueOverflow));
    assert_eq!(queue.pop_error(), None);
    queue.push_error(Error::SyntaxError);
    queue.push_error(Error::SystemError);
    queue.clear();
    assert_eq!(queue.error_count(), 0);
    assert_eq!(queue.pop_error(), None);
    queue.push_error(Error::HardwareError);
    assert_eq!(queue.pop_error(), Some(Error::HardwareError));
}
