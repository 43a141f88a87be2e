//! The closed set of IEEE 488.2 errors, each with its number and message.

use vstd::prelude::*;

verus! {

/// An error that an instrument reports, as IEEE 488.2 section 21.8 lists
/// them, or a device-specific one.
#[derive(Debug, Clone, Copy, PartialEq)]
pub enum Error {
    /// A device-specific error: its number and its message.
    Custom(i16, &'static str),
    /// Command error (-100).
    CommandError,
    /// Invalid character (-101).
    InvalidCharacter,
    /// Syntax error (-102).
    SyntaxError,
    /// Invalid separator (-103).
    InvalidSeparator,
    /// Data type error (-104).
    DataTypeError,
    /// GET not allowed (-105).
    GetNotAllowed,
    /// Parameter not allowed (-108).
    ParameterNotAllowed,
    /// Missing parameter (-109).
    MissingParameter,
    /// Command header error (-110).
    CommandHeaderError,
    /// Header separator error (-111).
    HeaderSeparatorError,
    /// Program mnemonic too long (-112).
    ProgramMnemonicTooLong,
    /// Undefined header (-113).
    UndefinedHeader,
    /// Header suffix out of range (-114).
    HeaderSuffixOutOfRange,
    /// Unexpected number of parameters (-115).
    UnexpectedNumberOfParameters,
    /// Numeric data error (-120).
    NumericDataError,
    /// Invalid character in number (-121).
    InvalidCharacterInNumber,
    /// Exponent too large (-123).
    ExponentTooLarge,
    /// Too many digits (-124).
    TooManyDigits,
    /// Numeric data not allowed (-128).
    NumericDataNotAllowed,
    /// Suffix error (-130).
    SuffixError,
    /// Invalid suffix (-131).
    InvalidSuffix,
    /// Suffix too long (-134).
    SuffixTooLong,
    /// Suffix not allowed (-138).
    SuffixNotAllowed,
    /// Character data error (-140).
    CharacterDataError,
    /// Invalid character data (-141).
    InvalidCharacterData,
    /// Character data too long (-144).
    CharacterDataTooLong,
    /// Character data not allowed (-148).
    CharacterNotAllowed,
    /// String data error (-150).
    StringDataError,
    /// Invalid string data (-151).
    InvalidStringData,
    /// String data not allowed (-158).
    StringDataNotAllowed,
    /// Block data error (-160).
    BlockDataError,
    /// Invalid block data (-161).
    InvalidBlockData,
    /// Block data not allowed (-168).
    BlockDataNotAllowed,
    /// Expression error (-170).
    ExpressionError,
    /// Invalid expression (-171).
    InvalidExpression,
    /// Expression data not allowed (-178).
    ExpressionDataNotAllowed,
    /// Execution error (-200).
    ExecutionError,
    /// Invalid while in local (-201).
    InvalidWhileInLocal,
    /// Command protected (-203).
    CommandProtected,
    /// Trigger error (-210).
    TriggerError,
    /// Parameter error (-220).
    ParameterError,
    /// Settings conflict (-221).
    SettingsConflict,
    /// Data out of range (-222).
    DataOutOfRange,
    /// Too much data (-223).
    TooMuchData,
    /// Illegal parameter value (-224).
    IllegalParameterValue,
    /// Out of memory (-225).
    OutOfMemory,
    /// Lists not same length (-226).
    ListsNotSameLength,
    /// Data corrupt or stale (-230).
    DataCorruptOrStale,
    /// Hardware error (-240).
    HardwareError,
    /// Device-specific error (-300).
    DeviceSpecificError,
    /// System error (-310).
    SystemError,
    /// Storage fault (-320).
    StorageFault,
    /// Self-test failed (-330).
    SelfTestFailed,
    /// Calibration failed (-340).
    CalibrationFailed,
    /// Queue overflow (-350).
    QueueOverflow,
    /// Communication error (-360).
    CommunicationError,
    /// Input buffer overrun (-363).
    InputBufferOverrun,
    /// Time out error (-365).
    TimeoutError,
    /// Query error (-400).
    QueryError,
}

impl Error {
    /// The number that IEEE 488.2 assigns to this error. A custom error
    /// carries its own.
    pub open spec fn code(self) -> int {
        match self {
            Error::Custom(number, _) => number as int,
            Error::CommandError => -100,
            Error::InvalidCharacter => -101,
            Error::SyntaxError => -102,
            Error::InvalidSeparator => -103,
            Error::DataTypeError => -104,
            Error::GetNotAllowed => -105,
            Error::ParameterNotAllowed => -108,
            Error::MissingParameter => -109,
            Error::CommandHeaderError => -110,
            Error::HeaderSeparatorError => -111,
            Error::ProgramMnemonicTooLong => -112,
            Error::UndefinedHeader => -113,
            Error::HeaderSuffixOutOfRange => -114,
            Error::UnexpectedNumberOfParameters => -115,
            Error::NumericDataError => -120,
            Error::InvalidCharacterInNumber => -121,
            Error::ExponentTooLarge => -123,
            Error::TooManyDigits => -124,
            Error::NumericDataNotAllowed => -128,
            Error::SuffixError => -130,
            Error::InvalidSuffix => -131,
            Error::SuffixTooLong => -134,
            Error::SuffixNotAllowed => -138,
            Error::CharacterDataError => -140,
            Error::InvalidCharacterData => -141,
            Error::CharacterDataTooLong => -144,
            Error::CharacterNotAllowed => -148,
            Error::StringDataError => -150,
            Error::InvalidStringData => -151,
            Error::StringDataNotAllowed => -158,
            Error::BlockDataError => -160,
            Error::InvalidBlockData => -161,
            Error::BlockDataNotAllowed => -168,
            Error::ExpressionError => -170,
            Error::InvalidExpression => -171,
            Error::ExpressionDataNotAllowed => -178,
            Error::ExecutionError => -200,
            Error::InvalidWhileInLocal => -201,
            Error::CommandProtected => -203,
            Error::TriggerError => -210,
            Error::ParameterError => -220,
            Error::SettingsConflict => -221,
            Error::DataOutOfRange => -222,
            Error::TooMuchData => -223,
            Error::IllegalParameterValue => -224,
            Error::OutOfMemory => -225,
            Error::ListsNotSameLength => -226,
            Error::DataCorruptOrStale => -230,
            Error::HardwareError => -240,
            Error::DeviceSpecificError => -300,
            Error::SystemError => -310,
            Error::StorageFault => -320,
            Error::SelfTestFailed => -330,
            Error::CalibrationFailed => -340,
            Error::QueueOverflow => -350,
            Error::CommunicationError => -360,
            Error::InputBufferOverrun => -363,
            Error::TimeoutError => -365,
            Error::QueryError => -400,
        }
    }

    /// The message sent with this error in the reply to an error query. A
    /// custom error carries its own.
    pub open spec fn message_text(self) -> Seq<char> {
        match self {
            Error::Custom(_, name) => name@,
            Error::CommandError => "Command error"@,
            Error::InvalidCharacter => "Invalid character"@,
            Error::SyntaxError => "Syntax error"@,
            Error::InvalidSeparator => "Invalid separator"@,
            Error::DataTypeError => "Data type error"@,
            Error::GetNotAllowed => "GET not allowed"@,
            Error::ParameterNotAllowed => "Parameter not allowed"@,
            Error::MissingParameter => "Missing parameter"@,
            Error::CommandHeaderError => "Command header error"@,
            Error::HeaderSeparatorError => "Header separator error"@,
            Error::ProgramMnemonicTooLong => "Program mnemonic too long"@,
            Error::UndefinedHeader => "Undefined header"@,
            Error::HeaderSuffixOutOfRange => "Header suffix out of range"@,
            Error::UnexpectedNumberOfParameters => "Unexpected number of parameters"@,
            Error::NumericDataError => "Numeric data error"@,
            Error::InvalidCharacterInNumber => "Invalid character in number"@,
            Error::ExponentTooLarge => "Exponent too large"@,
            Error::TooManyDigits => "Too many digits"@,
            Error::NumericDataNotAllowed => "Numeric data not allowed"@,
            Error::SuffixError => "Suffix error"@,
            Error::InvalidSuffix => "Invalid suffix"@,
            Error::SuffixTooLong => "Suffix too long"@,
            Error::SuffixNotAllowed => "Suffix not allowed"@,
            Error::CharacterDataError => "Character data error"@,
            Error::InvalidCharacterData => "Invalid character data"@,
            Error::CharacterDataTooLong => "Character data too long"@,
            Error::CharacterNotAllowed => "Character data not allowed"@,
            Error::StringDataError => "String data error"@,
            Error::InvalidStringData => "Invalid string data"@,
            Error::StringDataNotAllowed => "String data not allowed"@,
            Error::BlockDataError => "Block data error"@,
            Error::InvalidBlockData => "Invalid block data"@,
            Error::BlockDataNotAllowed => "Block data not allowed"@,
            Error::ExpressionError => "Expression error"@,
            Error::InvalidExpression => "Invalid expression"@,
            Error::ExpressionDataNotAllowed => "Expression data not allowed"@,
            Error::ExecutionError => "Execution error"@,
            Error::InvalidWhileInLocal => "Invalid while in local"@,
            Error::CommandProtected => "Command protected"@,
            Error::TriggerError => "Trigger error"@,
            Error::ParameterError => "Parameter error"@,
            Error::SettingsConflict => "Settings conflict"@,
            Error::DataOutOfRange => "Data out of range"@,
            Error::TooMuchData => "Too much data"@,
            Error::IllegalParameterValue => "Illegal parameter value"@,
            Error::OutOfMemory => "Out of memory"@,
            Error::ListsNotSameLength => "Lists not same length"@,
            Error::DataCorruptOrStale => "Data corrupt or stale"@,
            Error::HardwareError => "Hardware error"@,
            Error::DeviceSpecificError => "Device-specific error"@,
            Error::SystemError => "System error"@,
            Error::StorageFault => "Storage fault"@,
            Error::SelfTestFailed => "Self-test failed"@,
            Error::CalibrationFailed => "Calibration failed"@,
            Error::QueueOverflow => "Queue overflow"@,
            Error::CommunicationError => "Communication error"@,
            Error::InputBufferOverrun => "Input buffer overrun"@,
            Error::TimeoutError => "Time out error"@,
            Error::QueryError => "Query error"@,
        }
    }

    /// True for the errors that the standard defines, false for a custom one.
    pub open spec fn is_standard(self) -> bool {
        !(self is Custom)
    }

    /// Get the error number as defined in IEEE 488.2.
    pub fn number(&self) -> (r: i16)
        ensures
            r == self.code(),
    {
        match self {
            Error::Custom(number, _) => *number,
            Error::CommandError => -100,
            Error::InvalidCharacter => -101,
            Error::SyntaxError => -102,
            Error::InvalidSeparator => -103,
            Error::DataTypeError => -104,
            Error::GetNotAllowed => -105,
            Error::ParameterNotAllowed => -108,
            Error::MissingParameter => -109,
            Error::CommandHeaderError => -110,
            Error::HeaderSeparatorError => -111,
            Error::ProgramMnemonicTooLong => -112,
            Error::UndefinedHeader => -113,
            Error::HeaderSuffixOutOfRange => -114,
            Error::UnexpectedNumberOfParameters => -115,
            Error::NumericDataError => -120,
            Error::InvalidCharacterInNumber => -121,
            Error::ExponentTooLarge => -123,
            Error::TooManyDigits => -124,
            Error::NumericDataNotAllowed => -128,
            Error::SuffixError => -130,
            Error::InvalidSuffix => -131,
            Error::SuffixTooLong => -134,
            Error::SuffixNotAllowed => -138,
            Error::CharacterDataError => -140,
            Error::InvalidCharacterData => -141,
            Error::CharacterDataTooLong => -144,
            Error::CharacterNotAllowed => -148,
            Error::StringDataError => -150,
            Error::InvalidStringData => -151,
            Error::StringDataNotAllowed => -158,
            Error::BlockDataError => -160,
            Error::InvalidBlockData => -161,
            Error::BlockDataNotAllowed => -168,
            Error::ExpressionError => -170,
            Error::InvalidExpression => -171,
            Error::ExpressionDataNotAllowed => -178,
            Error::ExecutionError => -200,
            Error::InvalidWhileInLocal => -201,
            Error::CommandProtected => -203,
            Error::TriggerError => -210,
            Error::ParameterError => -220,
            Error::SettingsConflict => -221,
            Error::DataOutOfRange => -222,
            Error::TooMuchData => -223,
            Error::IllegalParameterValue => -224,
            Error::OutOfMemory => -225,
            Error::ListsNotSameLength => -226,
            Error::DataCorruptOrStale => -230,
            Error::HardwareError => -240,
            Error::DeviceSpecificError => -300,
            Error::SystemError => -310,
            Error::StorageFault => -320,
            Error::SelfTestFailed => -330,
            Error::CalibrationFailed => -340,
            Error::QueueOverflow => -350,
            Error::CommunicationError => -360,
            Error::InputBufferOverrun => -363,
            Error::TimeoutError => -365,
            Error::QueryError => -400,
        }
    }

    /// Get the message that belongs to this error.
    pub fn message(&self) -> (r: &'static str)
        ensures
            r@ == self.message_text(),
    {
        match self {
            Error::Custom(_, name) => *name,
            Error::CommandError => "Command error",
            Error::InvalidCharacter => "Invalid character",
            Error::SyntaxError => "Syntax error",
            Error::InvalidSeparator => "Invalid separator",
            Error::DataTypeError => "Data type error",
            Error::GetNotAllowed => "GET not allowed",
            Error::ParameterNotAllowed => "Parameter not allowed",
            Error::MissingParameter => "Missing parameter",
            Error::CommandHeaderError => "Command header error",
            Error::HeaderSeparatorError => "Header separator error",
            Error::ProgramMnemonicTooLong => "Program mnemonic too long",
            Error::UndefinedHeader => "Undefined header",
            Error::HeaderSuffixOutOfRange => "Header suffix out of range",
            Error::UnexpectedNumberOfParameters => "Unexpected number of parameters",
            Error::NumericDataError => "Numeric data error",
            Error::InvalidCharacterInNumber => "Invalid character in number",
            Error::ExponentTooLarge => "Exponent too large",
            Error::TooManyDigits => "Too many digits",
            Error::NumericDataNotAllowed => "Numeric data not allowed",
            Error::SuffixError => "Suffix error",
            Error::InvalidSuffix => "Invalid suffix",
            Error::SuffixTooLong => "Suffix too long",
            Error::SuffixNotAllowed => "Suffix not allowed",
            Error::CharacterDataError => "Character data error",
            Error::InvalidCharacterData => "Invalid character data",
            Error::CharacterDataTooLong => "Character data too long",
            Error::CharacterNotAllowed => "Character data not allowed",
            Error::StringDataError => "String data error",
            Error::InvalidStringData => "Invalid string data",
            Error::StringDataNotAllowed => "String data not allowed",
            Error::BlockDataError => "Block data error",
            Error::InvalidBlockData => "Invalid block data",
            Error::BlockDataNotAllowed => "Block data not allowed",
            Error::ExpressionError => "Expression error",
            Error::InvalidExpression => "Invalid expression",
            Error::ExpressionDataNotAllowed => "Expression data not allowed",
            Error::ExecutionError => "Execution error",
            Error::InvalidWhileInLocal => "Invalid while in local",
            Error::CommandProtected => "Command protected",
            Error::TriggerError => "Trigger error",
            Error::ParameterError => "Parameter error",
            Error::SettingsConflict => "Settings conflict",
            Error::DataOutOfRange => "Data out of range",
            Error::TooMuchData => "Too much data",
            Error::IllegalParameterValue => "Illegal parameter value",
            Error::OutOfMemory => "Out of memory",
            Error::ListsNotSameLength => "Lists not same length",
            Error::DataCorruptOrStale => "Data corrupt or stale",
            Error::HardwareError => "Hardware error",
            Error::DeviceSpecificError => "Device-specific error",
            Error::SystemError => "System error",
            Error::StorageFault => "Storage fault",
            Error::SelfTestFailed => "Self-test failed",
            Error::CalibrationFailed => "Calibration failed",
            Error::QueueOverflow => "Queue overflow",
            Error::CommunicationError => "Communication error",
            Error::InputBufferOverrun => "Input buffer overrun",
            Error::TimeoutError => "Time out error",
            Error::QueryError => "Query error",
        }
    }
}

/// Every standard error has a number between -400 and -100.
pub proof fn lemma_standard_codes_negative(e: Error)
    requires
        e.is_standard(),
    ensures
        -400 <= e.code() <= -100,
{
}

/// Two standard errors with the same number are the same error.
pub proof fn lemma_standard_codes_distinct(a: Error, b: Error)
    requires
        a.is_standard(),
        b.is_standard(),
        a.code() == b.code(),
    ensures
        a == b,
{
}

} // verus!
