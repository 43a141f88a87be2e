//! The grammar of a program message unit: a header, an optional question
//! mark, arguments, and a terminator.
//!
//! Each production is a function from the input to what is left of it and
//! what was read. What a production accepts is stated once as a
//! specification function over the bytes, and the parser is proved to
//! follow it.

use core::str::Utf8Error;
use vstd::prelude::*;
use vstd::slice::slice_subrange;
use vstd::std_specs::convert::FromSpecImpl;
use vstd::utf8::{encode_utf8, valid_utf8};
use crate::error::Error;
use crate::tree::{NodeId, Tree};
use crate::value::{Lexeme, Value};
use crate::MAX_ARGS;

verus! {

/// Enum to handle both recoverable and fatal errors.
#[derive(Debug, Clone, Copy, PartialEq)]
pub enum ParseError {
    /// Recoverable error: another production may still match.
    SoftError(Option<Error>),
    /// Unrecoverable error: the message unit is wrong.
    FatalError(Error),
    /// The input ends where more is needed.
    Incomplete,
}

/// The outside type `core::str::Utf8Error`, of which nothing is known.
#[verifier::external_type_specification]
#[verifier::external_body]
pub struct ExUtf8Error(Utf8Error);

impl From<()> for ParseError {
    fn from(_unit: ()) -> (r: ParseError) {
        ParseError::SoftError(None)
    }
}

impl FromSpecImpl<()> for ParseError {
    open spec fn obeys_from_spec() -> bool {
        true
    }

    open spec fn from_spec(_unit: ()) -> ParseError {
        ParseError::SoftError(None)
    }
}

impl From<Error> for ParseError {
    fn from(e: Error) -> (r: ParseError) {
        match e {
            Error::UndefinedHeader => ParseError::FatalError(e),
            _ => ParseError::SoftError(Some(e)),
        }
    }
}

impl FromSpecImpl<Error> for ParseError {
    open spec fn obeys_from_spec() -> bool {
        true
    }

    open spec fn from_spec(e: Error) -> ParseError {
        match e {
            Error::UndefinedHeader => ParseError::FatalError(e),
            _ => ParseError::SoftError(Some(e)),
        }
    }
}

impl From<Utf8Error> for ParseError {
    fn from(_e: Utf8Error) -> (r: ParseError) {
        ParseError::SoftError(Some(Error::InvalidCharacter))
    }
}

impl FromSpecImpl<Utf8Error> for ParseError {
    open spec fn obeys_from_spec() -> bool {
        true
    }

    open spec fn from_spec(_e: Utf8Error) -> ParseError {
        ParseError::SoftError(Some(Error::InvalidCharacter))
    }
}

/// The error that is reported for a failed parse. A failure without an
/// error of its own counts as a syntax error.
pub open spec fn reported(value: ParseError) -> Error {
    match value {
        ParseError::SoftError(Some(error)) => error,
        ParseError::SoftError(None) => Error::SyntaxError,
        ParseError::FatalError(error) => error,
        ParseError::Incomplete => Error::SyntaxError,
    }
}

impl ParseError {
    /// The error that is reported for this failure.
    pub fn into_error(self) -> (r: Error)
        ensures
            r == reported(self),
    {
        match self {
            ParseError::SoftError(Some(error)) => error,
            ParseError::SoftError(None) => Error::SyntaxError,
            ParseError::FatalError(error) => error,
            ParseError::Incomplete => Error::SyntaxError,
        }
    }
}

impl From<ParseError> for Error {
    fn from(value: ParseError) -> (r: Error) {
        value.into_error()
    }
}

impl FromSpecImpl<ParseError> for Error {
    open spec fn obeys_from_spec() -> bool {
        true
    }

    open spec fn from_spec(value: ParseError) -> Error {
        reported(value)
    }
}

/// Type alias for the parser result: what is left of the input, and what
/// was read.
pub type ParseResult<'a, T> = Result<(&'a [u8], T), ParseError>;

/// What a production makes of its input: the number of bytes that it
/// consumes, or the reason why it fails.
pub type Scan = Result<int, ParseError>;

/// What a production that reads an argument makes of its input: the number
/// of bytes that it consumes and the argument, or the reason why it fails.
pub type Item = Result<(int, Lexeme), ParseError>;

/// The failure of a production that met a byte it does not accept.
pub open spec fn invalid_character() -> ParseError {
    ParseError::SoftError(Some(Error::InvalidCharacter))
}

/// The classes of bytes that the grammar speaks of.
pub enum Class {
    /// The bytes 0 to 9 and 11 to 32: IEEE 488.2 white space.
    Whitespace,
    /// `0` to `9`.
    Digit,
    /// `A` to `Z` and `a` to `z`.
    Letter,
    /// A letter, a digit or `_`: what a mnemonic holds after its first byte.
    Mnemonic,
    /// `0` to `9`, `A` to `F` and `a` to `f`.
    Hexadecimal,
    /// `0` and `1`.
    Binary,
    /// `0` to `7`.
    Octal,
    /// `+` and `-`.
    Sign,
    /// `E` and `e`.
    Exponent,
}

/// Tells whether a byte belongs to a class.
pub open spec fn member(class: Class, b: u8) -> bool {
    match class {
        Class::Whitespace => b <= 9 || (11 <= b && b <= 32),
        Class::Digit => 0x30 <= b && b <= 0x39,
        Class::Letter => (0x41 <= b && b <= 0x5a) || (0x61 <= b && b <= 0x7a),
        Class::Mnemonic => (0x41 <= b && b <= 0x5a) || (0x61 <= b && b <= 0x7a) || (0x30 <= b && b
            <= 0x39) || b == 0x5f,
        Class::Hexadecimal => (0x30 <= b && b <= 0x39) || (0x41 <= b && b <= 0x46) || (0x61 <= b
            && b <= 0x66),
        Class::Binary => b == 0x30 || b == 0x31,
        Class::Octal => 0x30 <= b && b <= 0x37,
        Class::Sign => b == 0x2b || b == 0x2d,
        Class::Exponent => b == 0x45 || b == 0x65,
    }
}

/// The length of the longest prefix whose bytes all belong to the class.
pub open spec fn run_len(s: Seq<u8>, class: Class) -> int
    decreases s.len(),
{
    if s.len() > 0 && member(class, s.first()) {
        1 + run_len(s.drop_first(), class)
    } else {
        0
    }
}

/// One byte of the class: fails on a byte outside of it, and is incomplete
/// on an empty input.
pub open spec fn first_spec(s: Seq<u8>, class: Class) -> Scan {
    if s.len() == 0 {
        Err(ParseError::Incomplete)
    } else if member(class, s[0]) {
        Ok(1)
    } else {
        Err(invalid_character())
    }
}

/// The byte `t`: fails on another byte, and is incomplete on an empty input.
pub open spec fn tag_spec(s: Seq<u8>, t: u8) -> Scan {
    if s.len() == 0 {
        Err(ParseError::Incomplete)
    } else if s[0] == t {
        Ok(1)
    } else {
        Err(invalid_character())
    }
}

/// A run of white space, as long as it gets, and not empty.
pub open spec fn whitespace_spec(s: Seq<u8>) -> Scan {
    if s.len() == 0 {
        Err(ParseError::Incomplete)
    } else if run_len(s, Class::Whitespace) == 0 {
        Err(invalid_character())
    } else {
        Ok(run_len(s, Class::Whitespace))
    }
}

/// One byte of the class `head` and then as many of the class `tail` as
/// follow.
pub open spec fn word_spec(s: Seq<u8>, head: Class, tail: Class) -> Scan {
    match first_spec(s, head) {
        Ok(_) => Ok(1 + run_len(s.skip(1), tail)),
        Err(e) => Err(e),
    }
}

/// A sequence of digits, as long as it gets, and not empty.
pub open spec fn digits_spec(s: Seq<u8>) -> Scan {
    word_spec(s, Class::Digit, Class::Digit)
}

/// A program mnemonic: a letter, then letters, digits and underscores.
pub open spec fn program_mnemonic_spec(s: Seq<u8>) -> Scan {
    word_spec(s, Class::Letter, Class::Mnemonic)
}

/// What an optional production consumes: nothing where it fails.
pub open spec fn opt(r: Scan) -> int {
    match r {
        Ok(n) => n,
        Err(_) => 0,
    }
}

/// A fraction: a point and digits behind it.
pub open spec fn fraction_spec(s: Seq<u8>) -> Scan {
    match tag_spec(s, 0x2e) {
        Err(e) => Err(e),
        Ok(_) => match digits_spec(s.skip(1)) {
            Ok(n) => Ok(1 + n),
            Err(e) => Err(e),
        },
    }
}

/// The mantissa of a decimal number: an optional sign, and then digits with
/// a fraction where one follows, or a fraction alone.
pub open spec fn mantissa_spec(s: Seq<u8>) -> Scan {
    let a = opt(first_spec(s, Class::Sign));
    match digits_spec(s.skip(a)) {
        Ok(d) => Ok(a + d + opt(fraction_spec(s.skip(a + d)))),
        Err(_) => match fraction_spec(s.skip(a)) {
            Ok(f) => Ok(a + f),
            Err(e) => Err(e),
        },
    }
}

/// The exponent of a decimal number: `E` or `e`, an optional sign, digits.
pub open spec fn exponent_spec(s: Seq<u8>) -> Scan {
    match first_spec(s, Class::Exponent) {
        Err(e) => Err(e),
        Ok(_) => {
            let a = 1 + opt(first_spec(s.skip(1), Class::Sign));
            match digits_spec(s.skip(a)) {
                Ok(n) => Ok(a + n),
                Err(e) => Err(e),
            }
        },
    }
}

/// A decimal number: a mantissa and, where one follows, an exponent.
pub open spec fn decimal_spec(s: Seq<u8>) -> Scan {
    match mantissa_spec(s) {
        Err(e) => Err(e),
        Ok(m) => Ok(m + opt(exponent_spec(s.skip(m)))),
    }
}

/// A number in another radix: `#`, the letter of the radix in either case,
/// and digits of the radix, at least one. It consumes the digits and the
/// two bytes before them.
pub open spec fn radix_spec(s: Seq<u8>, upper: u8, lower: u8, digit: Class) -> Scan {
    match tag_spec(s, 0x23) {
        Err(e) => Err(e),
        Ok(_) => if s.len() == 1 {
            Err(ParseError::Incomplete)
        } else if s[1] != upper && s[1] != lower {
            Err(invalid_character())
        } else {
            match word_spec(s.skip(2), digit, digit) {
                Ok(n) => Ok(2 + n),
                Err(e) => Err(e),
            }
        },
    }
}

/// What is left of the input and what was taken agree with `expected`.
pub open spec fn scanned(
    input: Seq<u8>,
    r: Result<(&[u8], &[u8]), ParseError>,
    expected: Scan,
) -> bool {
    match r {
        Ok((rest, taken)) => match expected {
            Ok(n) => 0 <= n <= input.len() && taken@ == input.take(n) && rest@ == input.skip(n),
            Err(_) => false,
        },
        Err(e) => expected == Err::<int, ParseError>(e),
    }
}

/// What is left of the input and the one byte that was taken agree with
/// `expected`.
pub open spec fn stepped(input: Seq<u8>, r: Result<(&[u8], u8), ParseError>, expected: Scan) -> bool {
    match r {
        Ok((rest, byte)) => expected == Ok::<int, ParseError>(1) && input.len() > 0 && byte
            == input[0] && rest@ == input.skip(1),
        Err(e) => expected == Err::<int, ParseError>(e),
    }
}

/// What is left of the input agrees with `expected`.
pub open spec fn skipped(input: Seq<u8>, r: Result<(&[u8], ()), ParseError>, expected: Scan) -> bool {
    match r {
        Ok((rest, _)) => match expected {
            Ok(n) => 0 <= n <= input.len() && rest@ == input.skip(n),
            Err(_) => false,
        },
        Err(e) => expected == Err::<int, ParseError>(e),
    }
}

/// What is left of the input and the argument that was read agree with
/// `expected`.
pub open spec fn valued(
    input: Seq<u8>,
    r: Result<(&[u8], Value<'_>), ParseError>,
    expected: Item,
) -> bool {
    match r {
        Ok((rest, value)) => match expected {
            Ok((n, lexeme)) => 0 <= n <= input.len() && rest@ == input.skip(n) && value@ == lexeme,
            Err(_) => false,
        },
        Err(e) => expected == Err::<(int, Lexeme), ParseError>(e),
    }
}

/// A run has a length between nothing and all of the input.
pub proof fn lemma_run_bounds(s: Seq<u8>, class: Class)
    ensures
        0 <= run_len(s, class) <= s.len(),
    decreases s.len(),
{
    if s.len() > 0 && member(class, s.first()) {
        lemma_run_bounds(s.drop_first(), class);
    }
}

/// A prefix of bytes of the class, followed by the end of the input or by a
/// byte outside of the class, is the run.
pub proof fn lemma_run_is(s: Seq<u8>, class: Class, n: int)
    requires
        0 <= n <= s.len(),
        forall|i: int| 0 <= i < n ==> member(class, #[trigger] s[i]),
        n < s.len() ==> !member(class, s[n]),
    ensures
        run_len(s, class) == n,
    decreases n,
{
    if n > 0 {
        let rest = s.drop_first();
        assert forall|i: int| 0 <= i < n - 1 implies member(class, #[trigger] rest[i]) by {
            assert(rest[i] == s[i + 1]);
        }
        lemma_run_is(rest, class, n - 1);
    }
}

/// The bytes of a run belong to the class, and the byte after it does not.
pub proof fn lemma_run_holds(s: Seq<u8>, class: Class)
    ensures
        forall|i: int| 0 <= i < run_len(s, class) ==> member(class, #[trigger] s[i]),
        run_len(s, class) < s.len() ==> !member(class, s[run_len(s, class)]),
        0 <= run_len(s, class) <= s.len(),
    decreases s.len(),
{
    if s.len() > 0 && member(class, s.first()) {
        let rest = s.drop_first();
        lemma_run_holds(rest, class);
        assert forall|i: int| 0 <= i < run_len(s, class) implies member(class, #[trigger] s[i]) by {
            if i > 0 {
                assert(s[i] == rest[i - 1]);
            }
        }
        if run_len(s, class) < s.len() {
            assert(s[run_len(s, class)] == rest[run_len(rest, class)]);
        }
    }
}

/// Bytes below 128 are valid UTF-8.
pub proof fn lemma_ascii_is_utf8(s: Seq<u8>)
    requires
        forall|i: int| 0 <= i < s.len() ==> #[trigger] s[i] <= 0x7f,
    ensures
        valid_utf8(s),
{
    assert(s.subrange(0, 0) =~= Seq::<u8>::empty());
    assert(vstd::utf8::partial_valid_utf8(s, 0));
    assert forall|i: int| 0 <= 0 <= i < s.len() <= s.len() implies #[trigger]
        vstd::utf8::is_leading_byte_width_1(s[i]) by {
        assert(s[i] <= 0x7f);
    }
    vstd::utf8::partial_valid_utf8_extend_ascii_block(s, 0, s.len() as int);
    assert(s.subrange(0, s.len() as int) =~= s);
}

/// Calls `core::str::from_utf8`, which succeeds exactly on the byte
/// sequences that are valid UTF-8 and then returns the bytes as a string.
#[verifier::external_body]
fn from_utf8<'a>(bytes: &'a [u8]) -> (r: Result<&'a str, Utf8Error>)
    ensures
        r is Ok <==> valid_utf8(bytes@),
        r is Ok ==> encode_utf8(r->Ok_0@) == bytes@,
{
    core::str::from_utf8(bytes)
}

/// Checks if a byte is a whitespace character according to IEEE 488.2.
pub fn is_whitespace(input: u8) -> (r: bool)
    ensures
        r == member(Class::Whitespace, input),
{
    input <= 9 || (11 <= input && input <= 32)
}

/// Checks if a byte is a decimal digit.
pub fn is_digit(input: u8) -> (r: bool)
    ensures
        r == member(Class::Digit, input),
{
    // `0` to `9`
    0x30 <= input && input <= 0x39
}

/// Checks if a byte is an ASCII letter.
pub fn is_letter(input: u8) -> (r: bool)
    ensures
        r == member(Class::Letter, input),
{
    // `A` to `Z`, `a` to `z`
    (0x41 <= input && input <= 0x5a) || (0x61 <= input && input <= 0x7a)
}

/// Checks if a byte may stand in a mnemonic after its first byte.
pub fn is_mnemonic_byte(input: u8) -> (r: bool)
    ensures
        r == member(Class::Mnemonic, input),
{
    // 0x5f is `_`
    is_letter(input) || is_digit(input) || input == 0x5f
}

/// Checks if a byte is a hexadecimal digit.
pub fn is_hexadecimal_digit(input: u8) -> (r: bool)
    ensures
        r == member(Class::Hexadecimal, input),
{
    // `A` to `F`, `a` to `f`
    is_digit(input) || (0x41 <= input && input <= 0x46) || (0x61 <= input && input <= 0x66)
}

/// Checks if a byte is a binary digit.
pub fn is_binary_digit(input: u8) -> (r: bool)
    ensures
        r == member(Class::Binary, input),
{
    // `0`, `1`
    input == 0x30 || input == 0x31
}

/// Checks if a byte is an octal digit.
pub fn is_octal_digit(input: u8) -> (r: bool)
    ensures
        r == member(Class::Octal, input),
{
    // `0` to `7`
    0x30 <= input && input <= 0x37
}

/// Checks if a byte is a sign.
pub fn is_sign(input: u8) -> (r: bool)
    ensures
        r == member(Class::Sign, input),
{
    // `+`, `-`
    input == 0x2b || input == 0x2d
}

/// Checks if a byte introduces an exponent.
pub fn is_exponent_mark(input: u8) -> (r: bool)
    ensures
        r == member(Class::Exponent, input),
{
    // `E`, `e`
    input == 0x45 || input == 0x65
}

/// Takes bytes while the predicate function is true.
///
/// Returns a tuple with the remaining input and the slice of bytes that were
/// taken. It never fails.
pub fn take_while<'a, F: Fn(u8) -> bool>(pred: F, input: &'a [u8]) -> (r: ParseResult<'a, &'a [u8]>)
    requires
        forall|b: u8| call_requires(pred, (b,)),
    ensures
        r is Ok,
        ({
            let (rest, taken) = r->Ok_0;
            &&& taken@.len() <= input@.len()
            &&& taken@ == input@.take(taken@.len() as int)
            &&& rest@ == input@.skip(taken@.len() as int)
            &&& forall|i: int|
                0 <= i < taken@.len() ==> call_ensures(pred, (#[trigger] input@[i],), true)
            &&& taken@.len() < input@.len() ==> call_ensures(
                pred,
                (input@[taken@.len() as int],),
                false,
            )
        }),
{
    let mut i: usize = 0;
    while i < input.len()
        invariant
            i <= input@.len(),
            forall|b: u8| call_requires(pred, (b,)),
            forall|j: int| 0 <= j < i ==> call_ensures(pred, (#[trigger] input@[j],), true),
        ensures
            i <= input@.len(),
            forall|j: int| 0 <= j < i ==> call_ensures(pred, (#[trigger] input@[j],), true),
            i < input@.len() ==> call_ensures(pred, (input@[i as int],), false),
        decreases input@.len() - i,
    {
        if !pred(input[i]) {
            break ;
        }
        i += 1;
    }
    Ok((slice_subrange(input, i, input.len()), slice_subrange(input, 0, i)))
}

/// Takes a single byte that satisfies the predicate function.
///
/// Fails with `InvalidCharacter` on a byte that does not, and is incomplete
/// on an empty input.
pub fn satisfy<'a, F: Fn(u8) -> bool>(pred: F, input: &'a [u8]) -> (r: ParseResult<'a, u8>)
    requires
        forall|b: u8| call_requires(pred, (b,)),
    ensures
        match r {
            Ok((rest, byte)) => {
                &&& input@.len() > 0
                &&& byte == input@[0]
                &&& rest@ == input@.skip(1)
                &&& call_ensures(pred, (byte,), true)
            },
            Err(e) => if input@.len() == 0 {
                e == ParseError::Incomplete
            } else {
                e == invalid_character() && call_ensures(pred, (input@[0],), false)
            },
        },
{
    if input.len() == 0 {
        Err(ParseError::Incomplete)
    } else if pred(input[0]) {
        Ok((slice_subrange(input, 1, input.len()), input[0]))
    } else {
        Err(ParseError::SoftError(Some(Error::InvalidCharacter)))
    }
}

/// Makes a parser optional.
///
/// If the parser fails, for whatever reason, the result is `None` and
/// nothing is consumed.
pub fn optional<'a, G, F: Fn(&'a [u8]) -> ParseResult<'a, G>>(parser: F, input: &'a [u8]) -> (r:
    ParseResult<'a, Option<G>>)
    requires
        call_requires(parser, (input,)),
    ensures
        r is Ok,
        ({
            let (rest, found) = r->Ok_0;
            match found {
                Some(g) => call_ensures(parser, (input,), Ok::<(&[u8], G), ParseError>((rest, g))),
                None => rest == input && exists|e: ParseError|
                    call_ensures(parser, (input,), Err::<(&[u8], G), ParseError>(e)),
            }
        }),
{
    match parser(input) {
        Ok((rest, g)) => Ok((rest, Some(g))),
        Err(e) => {
            assert(call_ensures(parser, (input,), Err::<(&[u8], G), ParseError>(e)));
            Ok((input, None))
        },
    }
}

/// One byte of a class.
fn first<'a, F: Fn(u8) -> bool>(class_of: F, input: &'a [u8], Ghost(class): Ghost<Class>) -> (r:
    ParseResult<'a, u8>)
    requires
        forall|b: u8| call_requires(class_of, (b,)),
        forall|b: u8, out: bool| call_ensures(class_of, (b,), out) ==> out == member(class, b),
    ensures
        stepped(input@, r, first_spec(input@, class)),
{
    satisfy(class_of, input)
}

/// The bytes of a class at the start of the input.
fn run<'a, F: Fn(u8) -> bool>(class_of: F, input: &'a [u8], Ghost(class): Ghost<Class>) -> (r: (
    &'a [u8],
    &'a [u8],
))
    requires
        forall|b: u8| call_requires(class_of, (b,)),
        forall|b: u8, out: bool| call_ensures(class_of, (b,), out) ==> out == member(class, b),
    ensures
        r.1@ == input@.take(run_len(input@, class)),
        r.0@ == input@.skip(run_len(input@, class)),
        0 <= run_len(input@, class) <= input@.len(),
{
    match take_while(class_of, input) {
        Ok((rest, taken)) => {
            proof {
                lemma_run_is(input@, class, taken@.len() as int);
            }
            (rest, taken)
        },
        Err(_) => (input, slice_subrange(input, 0, 0)),
    }
}

/// One byte of the class `head` and then the bytes of the class `tail`.
fn word<'a, F: Fn(u8) -> bool, G: Fn(u8) -> bool>(
    head_of: F,
    tail_of: G,
    input: &'a [u8],
    Ghost(head): Ghost<Class>,
    Ghost(tail): Ghost<Class>,
) -> (r: ParseResult<'a, &'a [u8]>)
    requires
        forall|b: u8| call_requires(head_of, (b,)),
        forall|b: u8, out: bool| call_ensures(head_of, (b,), out) ==> out == member(head, b),
        forall|b: u8| call_requires(tail_of, (b,)),
        forall|b: u8, out: bool| call_ensures(tail_of, (b,), out) ==> out == member(tail, b),
    ensures
        scanned(input@, r, word_spec(input@, head, tail)),
{
    let (i1, _) = first(head_of, input, Ghost(head))?;
    let (i2, res) = run(tail_of, i1, Ghost(tail));
    let n = input.len() - i2.len();
    assert(input@.skip(1).skip(n - 1) =~= input@.skip(n as int));
    Ok((i2, slice_subrange(input, 0, n)))
}

/// Parses whitespace characters: all that follow, and at least one.
pub fn whitespace<'a>(input: &'a [u8]) -> (r: ParseResult<'a, &'a [u8]>)
    ensures
        scanned(input@, r, whitespace_spec(input@)),
{
    let (rest, taken) = run(is_whitespace, input, Ghost(Class::Whitespace));
    if input.len() == 0 {
        // If no input is remaining, the input is incomplete.
        Err(ParseError::Incomplete)
    } else if taken.len() == 0 {
        // There is only something other than whitespace.
        Err(ParseError::SoftError(Some(Error::InvalidCharacter)))
    } else {
        // There is at least some whitespace.
        Ok((rest, taken))
    }
}

/// Parses a single specific byte.
pub fn tag<'a>(byte: u8, input: &'a [u8]) -> (r: ParseResult<'a, u8>)
    ensures
        stepped(input@, r, tag_spec(input@, byte)),
{
    if input.len() == 0 {
        Err(ParseError::Incomplete)
    } else if input[0] == byte {
        Ok((slice_subrange(input, 1, input.len()), input[0]))
    } else {
        Err(ParseError::SoftError(Some(Error::InvalidCharacter)))
    }
}

/// Parses a terminator (newline character).
pub fn terminator<'a>(input: &'a [u8]) -> (r: ParseResult<'a, u8>)
    ensures
        stepped(input@, r, tag_spec(input@, 0x0a)),
{
    tag(0x0a, input)
}

/// Parses a sequence of digits.
pub fn digits<'a>(input: &'a [u8]) -> (r: ParseResult<'a, &'a [u8]>)
    ensures
        scanned(input@, r, digits_spec(input@)),
{
    word(is_digit, is_digit, input, Ghost(Class::Digit), Ghost(Class::Digit))
}

/// Parses a program mnemonic (e.g., "SYSTEM").
pub fn program_mnemonic<'a>(input: &'a [u8]) -> (r: ParseResult<'a, &'a [u8]>)
    ensures
        scanned(input@, r, program_mnemonic_spec(input@)),
{
    word(is_letter, is_mnemonic_byte, input, Ghost(Class::Letter), Ghost(Class::Mnemonic))
}

/// Parses a sign character (`+` or `-`).
pub fn sign<'a>(input: &'a [u8]) -> (r: ParseResult<'a, u8>)
    ensures
        stepped(input@, r, first_spec(input@, Class::Sign)),
{
    first(is_sign, input, Ghost(Class::Sign))
}

/// What is left of the input after an optional production.
fn after<'a, T>(input: &'a [u8], r: ParseResult<'a, T>) -> (rest: &'a [u8])
    ensures
        r is Ok ==> rest == r->Ok_0.0,
        r is Err ==> rest == input,
{
    match r {
        Ok((rest, _)) => rest,
        Err(_) => input,
    }
}

/// Parses a fraction: a point and digits.
fn fraction<'a>(input: &'a [u8]) -> (r: ParseResult<'a, &'a [u8]>)
    ensures
        scanned(input@, r, fraction_spec(input@)),
{
    let (i1, _) = tag(0x2e, input)?;
    let (i2, taken) = digits(i1)?;
    assert(i2@ =~= input@.skip(1 + taken@.len() as int)) by {
        assert(input@.skip(1).skip(taken@.len() as int) =~= input@.skip(1 + taken@.len() as int));
    }
    Ok((i2, slice_subrange(input, 0, input.len() - i2.len())))
}

/// Parses the mantissa part of a decimal number.
pub fn mantissa<'a>(input: &'a [u8]) -> (r: ParseResult<'a, &'a [u8]>)
    ensures
        scanned(input@, r, mantissa_spec(input@)),
{
    let ghost a = opt(first_spec(input@, Class::Sign));
    let i1 = after(input, sign(input));
    assert(i1@ =~= input@.skip(a));
    let rest = match digits(i1) {
        Ok((i2, _)) => {
            let ghost d = digits_spec(input@.skip(a))->Ok_0;
            assert(i2@ =~= input@.skip(a + d)) by {
                assert(input@.skip(a).skip(d) =~= input@.skip(a + d));
            }
            let ghost f = opt(fraction_spec(input@.skip(a + d)));
            let i3 = after(i2, fraction(i2));
            assert(i3@ =~= input@.skip(a + d + f)) by {
                assert(input@.skip(a + d).skip(f) =~= input@.skip(a + d + f));
            }
            i3
        },
        Err(_) => {
            let (i3, _) = fraction(i1)?;
            let ghost f = fraction_spec(input@.skip(a))->Ok_0;
            assert(i3@ =~= input@.skip(a + f)) by {
                assert(input@.skip(a).skip(f) =~= input@.skip(a + f));
            }
            i3
        },
    };
    Ok((rest, slice_subrange(input, 0, input.len() - rest.len())))
}

/// Parses the exponent part of a decimal number.
pub fn exponent<'a>(input: &'a [u8]) -> (r: ParseResult<'a, &'a [u8]>)
    ensures
        scanned(input@, r, exponent_spec(input@)),
{
    let (i1, _) = first(is_exponent_mark, input, Ghost(Class::Exponent))?;
    let ghost a = 1 + opt(first_spec(input@.skip(1), Class::Sign));
    let i2 = after(i1, sign(i1));
    assert(i2@ =~= input@.skip(a)) by {
        assert(input@.skip(1).skip(a - 1) =~= input@.skip(a));
    }
    let (i3, taken) = digits(i2)?;
    assert(i3@ =~= input@.skip(a + taken@.len())) by {
        assert(input@.skip(a).skip(taken@.len() as int) =~= input@.skip(a + taken@.len()));
    }
    Ok((i3, slice_subrange(input, 0, input.len() - i3.len())))
}

/// The text of bytes that are all below 128.
fn ascii_text<'a>(bytes: &'a [u8]) -> (r: Result<&'a str, ParseError>)
    ensures
        (forall|i: int| 0 <= i < bytes@.len() ==> #[trigger] bytes@[i] <= 0x7f) ==> r is Ok,
        r is Ok ==> encode_utf8(r->Ok_0@) == bytes@,
        r is Ok <==> valid_utf8(bytes@),
        r is Err ==> r->Err_0 == invalid_character(),
{
    proof {
        if forall|i: int| 0 <= i < bytes@.len() ==> #[trigger] bytes@[i] <= 0x7f {
            lemma_ascii_is_utf8(bytes@);
        }
    }
    match from_utf8(bytes) {
        Ok(text) => Ok(text),
        Err(_) => Err(ParseError::SoftError(Some(Error::InvalidCharacter))),
    }
}

/// The characters that a mnemonic argument stands for.
pub open spec fn mnemonic_spec(s: Seq<u8>) -> Item {
    match program_mnemonic_spec(s) {
        Ok(n) => Ok((n, Lexeme::Characters(s.take(n)))),
        Err(e) => Err(e),
    }
}

/// The decimal number that an argument stands for.
pub open spec fn decimal_data_spec(s: Seq<u8>) -> Item {
    match decimal_spec(s) {
        Ok(n) => Ok((n, Lexeme::Decimal(s.take(n)))),
        Err(e) => Err(e),
    }
}

/// The hexadecimal number that an argument stands for: `#H` and digits.
pub open spec fn hexadecimal_data_spec(s: Seq<u8>) -> Item {
    match radix_spec(s, 0x48, 0x68, Class::Hexadecimal) {
        Ok(n) => Ok((n, Lexeme::Hexadecimal(s.subrange(2, n)))),
        Err(e) => Err(e),
    }
}

/// The binary number that an argument stands for: `#B` and digits.
pub open spec fn binary_data_spec(s: Seq<u8>) -> Item {
    match radix_spec(s, 0x42, 0x62, Class::Binary) {
        Ok(n) => Ok((n, Lexeme::Binary(s.subrange(2, n)))),
        Err(e) => Err(e),
    }
}

/// The octal number that an argument stands for: `#Q` and digits.
pub open spec fn octal_data_spec(s: Seq<u8>) -> Item {
    match radix_spec(s, 0x51, 0x71, Class::Octal) {
        Ok(n) => Ok((n, Lexeme::Octal(s.subrange(2, n)))),
        Err(e) => Err(e),
    }
}

/// The bytes of a word are below 128.
proof fn lemma_word_is_ascii(s: Seq<u8>, head: Class, tail: Class)
    requires
        word_spec(s, head, tail) is Ok,
        forall|b: u8| member(head, b) ==> b <= 0x7f,
        forall|b: u8| member(tail, b) ==> b <= 0x7f,
    ensures
        forall|i: int| 0 <= i < word_spec(s, head, tail)->Ok_0 ==> #[trigger] s[i] <= 0x7f,
        1 <= word_spec(s, head, tail)->Ok_0 <= s.len(),
{
    lemma_run_holds(s.skip(1), tail);
    assert forall|i: int| 0 <= i < word_spec(s, head, tail)->Ok_0 implies #[trigger] s[i]
        <= 0x7f by {
        if i > 0 {
            assert(s[i] == s.skip(1)[i - 1]);
            assert(member(tail, s.skip(1)[i - 1]));
        }
    }
}

/// Parses a mnemonic value.
pub fn mnemonic<'a>(input: &'a [u8]) -> (r: ParseResult<'a, Value<'a>>)
    ensures
        valued(input@, r, mnemonic_spec(input@)),
{
    let (rest, res) = program_mnemonic(input)?;
    proof {
        lemma_word_is_ascii(input@, Class::Letter, Class::Mnemonic);
        assert forall|i: int| 0 <= i < res@.len() implies #[trigger] res@[i] <= 0x7f by {
            assert(res@[i] == input@[i]);
        }
    }
    let text = ascii_text(res)?;
    Ok((rest, Value::Characters(text)))
}


/// Parses a decimal number.
pub fn decimal_numeric_program_data<'a>(input: &'a [u8]) -> (r: ParseResult<'a, Value<'a>>)
    ensures
        valued(input@, r, decimal_data_spec(input@)),
{
    let (i1, m) = mantissa(input)?;
    let ghost m_len = mantissa_spec(input@)->Ok_0;
    let i2 = after(i1, exponent(i1));
    let n = input.len() - i2.len();
    assert(i2@ =~= input@.skip(n as int)) by {
        assert(input@.skip(m_len).skip(n - m_len) =~= input@.skip(n as int));
    }
    let taken = slice_subrange(input, 0, n);
    match ascii_text(taken) {
        Ok(text) => Ok((i2, Value::Decimal(text))),
        Err(_) => {
            proof {
                lemma_decimal_is_ascii(input@);
            }
            Err(ParseError::SoftError(Some(Error::InvalidCharacter)))
        },
    }
}

/// The bytes of a decimal number are below 128.
proof fn lemma_decimal_is_ascii(s: Seq<u8>)
    requires
        decimal_spec(s) is Ok,
    ensures
        0 <= decimal_spec(s)->Ok_0 <= s.len(),
        forall|i: int| 0 <= i < decimal_spec(s)->Ok_0 ==> #[trigger] s[i] <= 0x7f,
{
    let a = opt(first_spec(s, Class::Sign));
    let d = opt(digits_spec(s.skip(a)));
    let m = mantissa_spec(s)->Ok_0;
    let n = decimal_spec(s)->Ok_0;
    lemma_digits_are_ascii(s, a);
    lemma_fraction_is_ascii(s.skip(a + d));
    let x = 1 + opt(first_spec(s.skip(m).skip(1), Class::Sign));
    if exponent_spec(s.skip(m)) is Ok {
        lemma_digits_are_ascii(s.skip(m), x);
    }
    assert forall|i: int| 0 <= i < n implies #[trigger] s[i] <= 0x7f by {
        if i < a {
        } else if i < a + d {
            assert(s[i] == s.skip(a)[i - a]);
        } else if i < m {
            assert(s[i] == s.skip(a + d)[i - a - d]);
        } else {
            let e = s.skip(m);
            assert(s[i] == e[i - m]);
            if i - m == 0 {
            } else if i - m < x {
                assert(e[i - m] == e.skip(1)[0]);
            } else {
                assert(e[i - m] == e.skip(x)[i - m - x]);
            }
        }
    }
}

/// The bytes of a fraction are below 128, and end within the input.
proof fn lemma_fraction_is_ascii(s: Seq<u8>)
    ensures
        0 <= opt(fraction_spec(s)) <= s.len(),
        fraction_spec(s) is Ok ==> 2 <= opt(fraction_spec(s)),
        forall|i: int| 0 <= i < opt(fraction_spec(s)) ==> #[trigger] s[i] <= 0x7f,
{
    if fraction_spec(s) is Ok {
        lemma_digits_are_ascii(s, 1);
        lemma_run_bounds(s.skip(1).skip(1), Class::Digit);
        assert forall|i: int| 0 <= i < opt(fraction_spec(s)) implies #[trigger] s[i] <= 0x7f by {
            if i > 0 {
                assert(s[i] == s.skip(1)[i - 1]);
            }
        }
    }
}

/// Where digits follow the first `at` bytes, they are below 128 and end
/// within the input.
proof fn lemma_digits_are_ascii(s: Seq<u8>, at: int)
    requires
        0 <= at <= s.len(),
    ensures
        0 <= opt(digits_spec(s.skip(at))) <= s.len() - at,
        forall|i: int| 0 <= i < opt(digits_spec(s.skip(at))) ==> #[trigger] s.skip(at)[i] <= 0x7f,
{
    if digits_spec(s.skip(at)) is Ok {
        lemma_word_is_ascii(s.skip(at), Class::Digit, Class::Digit);
    }
}

/// A number in another radix: `#`, the letter of the radix, and digits.
fn radix_digits<'a, F: Fn(u8) -> bool>(
    input: &'a [u8],
    upper: u8,
    lower: u8,
    digit_of: F,
    Ghost(digit): Ghost<Class>,
) -> (r: ParseResult<'a, &'a str>)
    requires
        forall|b: u8| call_requires(digit_of, (b,)),
        forall|b: u8, out: bool| call_ensures(digit_of, (b,), out) ==> out == member(digit, b),
        forall|b: u8| member(digit, b) ==> b <= 0x7f,
    ensures
        match r {
            Ok((rest, text)) => match radix_spec(input@, upper, lower, digit) {
                Ok(n) => 2 <= n <= input@.len() && rest@ == input@.skip(n) && encode_utf8(text@)
                    == input@.subrange(2, n),
                Err(_) => false,
            },
            Err(e) => radix_spec(input@, upper, lower, digit) == Err::<int, ParseError>(e),
        },
{
    let (i1, _) = tag(0x23, input)?;
    if i1.len() == 0 {
        return Err(ParseError::Incomplete);
    }
    if i1[0] != upper && i1[0] != lower {
        return Err(ParseError::SoftError(Some(Error::InvalidCharacter)));
    }
    let i2 = slice_subrange(i1, 1, i1.len());
    assert(i2@ =~= input@.skip(2));
    let (i3, _) = first(&digit_of, i2, Ghost(digit))?;
    let (i4, _) = run(&digit_of, i3, Ghost(digit));
    let n = input.len() - i4.len();
    proof {
        lemma_word_is_ascii(input@.skip(2), digit, digit);
        assert(input@.skip(2).skip(1).skip(n - 3) =~= input@.skip(n as int));
    }
    let taken = slice_subrange(input, 2, n);
    assert forall|i: int| 0 <= i < taken@.len() implies #[trigger] taken@[i] <= 0x7f by {
        assert(taken@[i] == input@.skip(2)[i]);
    }
    let text = ascii_text(taken)?;
    Ok((i4, text))
}

/// Parses a hexadecimal number.
pub fn hexadecimal_numeric_program_data<'a>(input: &'a [u8]) -> (r: ParseResult<'a, Value<'a>>)
    ensures
        valued(input@, r, hexadecimal_data_spec(input@)),
{
    let (rest, text) = radix_digits(
        input,
        0x48,
        0x68,
        is_hexadecimal_digit,
        Ghost(Class::Hexadecimal),
    )?;
    Ok((rest, Value::Hexadecimal(text)))
}

/// Parses a binary number.
pub fn binary_numeric_program_data<'a>(input: &'a [u8]) -> (r: ParseResult<'a, Value<'a>>)
    ensures
        valued(input@, r, binary_data_spec(input@)),
{
    let (rest, text) = radix_digits(input, 0x42, 0x62, is_binary_digit, Ghost(Class::Binary))?;
    Ok((rest, Value::Binary(text)))
}

/// Parses an octal number.
pub fn octal_numeric_program_data<'a>(input: &'a [u8]) -> (r: ParseResult<'a, Value<'a>>)
    ensures
        valued(input@, r, octal_data_spec(input@)),
{
    let (rest, text) = radix_digits(input, 0x51, 0x71, is_octal_digit, Ghost(Class::Octal))?;
    Ok((rest, Value::Octal(text)))
}

/// The number of bytes before the first `stop`, or the length of the input
/// where it holds none.
pub open spec fn until(s: Seq<u8>, stop: u8) -> int
    decreases s.len(),
{
    if s.len() > 0 && s.first() != stop {
        1 + until(s.drop_first(), stop)
    } else {
        0
    }
}

/// A string: a single or a double quote, then all bytes up to the next
/// quote of the same kind. The bytes between the quotes must be valid UTF-8.
/// A quote inside of the string cannot be written.
pub open spec fn string_data_spec(s: Seq<u8>) -> Item {
    if s.len() == 0 {
        Err(ParseError::Incomplete)
    } else if s[0] != 0x22 && s[0] != 0x27 {
        Err(invalid_character())
    } else {
        let body = s.skip(1);
        let k = until(body, s[0]);
        if k >= body.len() {
            Err(ParseError::Incomplete)
        } else if !valid_utf8(body.take(k)) {
            Err(invalid_character())
        } else {
            Ok((k + 2, Lexeme::String(body.take(k))))
        }
    }
}

/// The bytes before the first `stop` are not `stop`, and the byte after
/// them is.
pub proof fn lemma_until_is(s: Seq<u8>, stop: u8, n: int)
    requires
        0 <= n <= s.len(),
        forall|i: int| 0 <= i < n ==> #[trigger] s[i] != stop,
        n < s.len() ==> s[n] == stop,
    ensures
        until(s, stop) == n,
    decreases n,
{
    if n > 0 {
        let rest = s.drop_first();
        assert forall|i: int| 0 <= i < n - 1 implies #[trigger] rest[i] != stop by {
            assert(rest[i] == s[i + 1]);
        }
        lemma_until_is(rest, stop, n - 1);
    }
}

/// Parses a string in single or double quotes.
pub fn string_program_data<'a>(input: &'a [u8]) -> (r: ParseResult<'a, Value<'a>>)
    ensures
        valued(input@, r, string_data_spec(input@)),
{
    if input.len() == 0 {
        return Err(ParseError::Incomplete);
    }
    let quote = input[0];
    if quote != 0x22 && quote != 0x27 {
        return Err(ParseError::SoftError(Some(Error::InvalidCharacter)));
    }
    let body = slice_subrange(input, 1, input.len());
    assert(body@ =~= input@.skip(1));
    let mut k: usize = 0;
    while k < body.len() && body[k] != quote
        invariant
            k <= body@.len(),
            forall|i: int| 0 <= i < k ==> #[trigger] body@[i] != quote,
        decreases body@.len() - k,
    {
        k += 1;
    }
    proof {
        lemma_until_is(body@, quote, k as int);
    }
    if k >= body.len() {
        return Err(ParseError::Incomplete);
    }
    let text = ascii_text(slice_subrange(body, 0, k))?;
    let rest = slice_subrange(body, k + 1, body.len());
    assert(rest@ =~= input@.skip(k + 2));
    Ok((rest, Value::String(text)))
}

/// Ten to the power of `n`.
pub open spec fn pow10(n: nat) -> int
    decreases n,
{
    if n == 0 {
        1
    } else {
        10 * pow10((n - 1) as nat)
    }
}

/// The number that the first `n` bytes denote in decimal. It is incomplete
/// where the input ends before them, and fails at a byte that is no digit,
/// whichever comes first.
pub open spec fn count_spec(s: Seq<u8>, n: int) -> Scan
    decreases n,
{
    if n <= 0 {
        Ok(0)
    } else {
        match count_spec(s, n - 1) {
            Err(e) => Err(e),
            Ok(high) => if s.len() < n {
                Err(ParseError::Incomplete)
            } else if !member(Class::Digit, s[n - 1]) {
                Err(invalid_character())
            } else {
                Ok(high * 10 + (s[n - 1] - 0x30))
            },
        }
    }
}

/// A block of arbitrary bytes: `#`, a digit from 1 to 9 that says how many
/// digits follow, those digits, which say how many bytes follow, and those
/// bytes.
pub open spec fn block_data_spec(s: Seq<u8>) -> Item {
    match tag_spec(s, 0x23) {
        Err(e) => Err(e),
        Ok(_) => if s.len() == 1 {
            Err(ParseError::Incomplete)
        } else if !(0x31 <= s[1] && s[1] <= 0x39) {
            Err(invalid_character())
        } else {
            let width = s[1] - 0x30;
            match count_spec(s.skip(2), width) {
                Err(e) => Err(e),
                Ok(length) => if s.len() < 2 + width + length {
                    Err(ParseError::Incomplete)
                } else {
                    Ok(
                        (
                            2 + width + length,
                            Lexeme::Arbitrary(s.subrange(2 + width, 2 + width + length)),
                        ),
                    )
                },
            }
        },
    }
}

/// A number of `n` decimal digits is below ten to the power of `n`.
pub proof fn lemma_count_bound(s: Seq<u8>, n: int)
    requires
        0 <= n,
        count_spec(s, n) is Ok,
    ensures
        0 <= count_spec(s, n)->Ok_0 < pow10(n as nat),
        n <= s.len(),
    decreases n,
{
    if n > 0 {
        lemma_count_bound(s, n - 1);
    }
}

/// Parses a block of arbitrary bytes.
pub fn arbitrary_block_program_data<'a>(input: &'a [u8]) -> (r: ParseResult<'a, Value<'a>>)
    ensures
        valued(input@, r, block_data_spec(input@)),
{
    let (i1, _) = tag(0x23, input)?;
    if i1.len() == 0 {
        return Err(ParseError::Incomplete);
    }
    if !(0x31 <= i1[0] && i1[0] <= 0x39) {
        return Err(ParseError::SoftError(Some(Error::InvalidCharacter)));
    }
    let width: usize = (i1[0] - 0x30) as usize;
    let field = slice_subrange(input, 2, input.len());
    assert(field@ =~= input@.skip(2));
    let mut length: usize = 0;
    let mut i: usize = 0;
    while i < width
        invariant
            i <= width <= 9,
            input@.len() >= 2,
            input@[0] == 0x23,
            0x31 <= input@[1] <= 0x39,
            width == input@[1] - 0x30,
            field@ == input@.skip(2),
            count_spec(field@, i as int) == Ok::<int, ParseError>(length as int),
        decreases width - i,
    {
        proof {
            lemma_count_bound(field@, i as int);
            reveal_with_fuel(pow10, 10);
        }
        if i >= field.len() {
            proof {
                lemma_count_fails(field@, i as int + 1, width as int);
            }
            return Err(ParseError::Incomplete);
        }
        if !is_digit(field[i]) {
            proof {
                lemma_count_fails(field@, i as int + 1, width as int);
            }
            return Err(ParseError::SoftError(Some(Error::InvalidCharacter)));
        }
        length = length * 10 + (field[i] - 0x30) as usize;
        i += 1;
    }
    proof {
        lemma_count_bound(field@, width as int);
        reveal_with_fuel(pow10, 10);
    }
    if field.len() - width < length {
        return Err(ParseError::Incomplete);
    }
    let start = 2 + width;
    let end = start + length;
    Ok((slice_subrange(input, end, input.len()), Value::Arbitrary(slice_subrange(input, start, end))))
}

/// A count that fails after `n` bytes fails alike after more.
proof fn lemma_count_fails(s: Seq<u8>, n: int, more: int)
    requires
        0 <= n <= more,
        count_spec(s, n) is Err,
    ensures
        count_spec(s, more) == count_spec(s, n),
    decreases more - n,
{
    if n < more {
        lemma_count_fails(s, n, more - 1);
    }
}

/// A separator: the byte `mark`, with white space before and after it as
/// it comes. Whatever is in the place of the mark, the failure is `error`.
pub open spec fn separator_spec(s: Seq<u8>, mark: u8, error: Error) -> Scan {
    let a = opt(whitespace_spec(s));
    match tag_spec(s.skip(a), mark) {
        Err(_) => Err(ParseError::SoftError(Some(error))),
        Ok(_) => Ok(a + 1 + opt(whitespace_spec(s.skip(a + 1)))),
    }
}

/// A separator consumes at least its mark, and no more than the input.
pub proof fn lemma_separator_bounds(s: Seq<u8>, mark: u8, error: Error)
    requires
        separator_spec(s, mark, error) is Ok,
    ensures
        1 <= separator_spec(s, mark, error)->Ok_0 <= s.len(),
{
    let a = opt(whitespace_spec(s));
    lemma_run_bounds(s, Class::Whitespace);
    lemma_run_bounds(s.skip(a + 1), Class::Whitespace);
}

/// Parses a separator.
fn separator<'a>(input: &'a [u8], mark: u8, error: Error) -> (r: ParseResult<'a, ()>)
    requires
        !(error is UndefinedHeader),
    ensures
        skipped(input@, r, separator_spec(input@, mark, error)),
{
    let ghost a = opt(whitespace_spec(input@));
    let i1 = after(input, whitespace(input));
    assert(i1@ =~= input@.skip(a));
    let i2 = match tag(mark, i1) {
        Ok((rest, _)) => rest,
        Err(_) => {
            return Err(ParseError::SoftError(Some(error)));
        },
    };
    assert(i2@ =~= input@.skip(a + 1)) by {
        assert(input@.skip(a).skip(1) =~= input@.skip(a + 1));
    }
    let ghost b = opt(whitespace_spec(input@.skip(a + 1)));
    let i3 = after(i2, whitespace(i2));
    assert(i3@ =~= input@.skip(a + 1 + b)) by {
        assert(input@.skip(a + 1).skip(b) =~= input@.skip(a + 1 + b));
    }
    proof {
        lemma_run_bounds(input@, Class::Whitespace);
        lemma_run_bounds(input@.skip(a + 1), Class::Whitespace);
    }
    Ok((i3, ()))
}

/// A header separator: a colon with optional white space around it.
pub open spec fn header_separator_spec(s: Seq<u8>) -> Scan {
    separator_spec(s, 0x3a, Error::HeaderSeparatorError)
}

/// An argument separator: a comma with optional white space around it.
pub open spec fn argument_separator_spec(s: Seq<u8>) -> Scan {
    separator_spec(s, 0x2c, Error::InvalidSeparator)
}

/// Parses a header separator (colon with optional whitespace).
pub fn header_separator<'a>(input: &'a [u8]) -> (r: ParseResult<'a, ()>)
    ensures
        skipped(input@, r, header_separator_spec(input@)),
{
    separator(input, 0x3a, Error::HeaderSeparatorError)
}

/// Parses an argument separator (comma with optional whitespace).
pub fn argument_separator<'a>(input: &'a [u8]) -> (r: ParseResult<'a, ()>)
    ensures
        skipped(input@, r, argument_separator_spec(input@)),
{
    separator(input, 0x2c, Error::InvalidSeparator)
}

/// The node that a header names, and the node from which the last segment
/// of the header was looked up. A common command has no such node.
#[derive(Debug, Clone, Copy, PartialEq, Eq)]
pub struct Header {
    pub node: NodeId,
    pub parent: Option<NodeId>,
}

/// What a production that reads a header makes of its input.
pub type Heading = Result<(int, Header), ParseError>;

/// The failure of a header that the tree does not hold.
pub open spec fn undefined_header() -> ParseError {
    ParseError::FatalError(Error::UndefinedHeader)
}

/// The result of a production that ran after `k` bytes were consumed.
pub open spec fn shift<T>(k: int, r: Result<(int, T), ParseError>) -> Result<(int, T), ParseError> {
    match r {
        Ok((n, v)) => Ok((k + n, v)),
        Err(e) => Err(e),
    }
}

/// A common command header: `*` and a mnemonic, looked up with its asterisk
/// among the children of the root.
pub open spec fn common_header_spec(tree: Tree, s: Seq<u8>) -> Heading {
    match tag_spec(s, 0x2a) {
        Err(_) => Err(undefined_header()),
        Ok(_) => match program_mnemonic_spec(s.skip(1)) {
            Err(e) => Err(e),
            Ok(n) => match tree.child_of(0, s.take(1 + n)) {
                Some(node) => Ok((1 + n, Header { node, parent: None })),
                None => Err(undefined_header()),
            },
        },
    }
}

/// The rest of a compound header after the segment that led from `parent`
/// to `node`: as long as a header separator follows, a mnemonic must
/// follow it and must be a child of the node reached so far.
pub open spec fn more_segments_spec(tree: Tree, parent: NodeId, node: NodeId, s: Seq<u8>) -> Heading
    decreases s.len(),
{
    match header_separator_spec(s) {
        Err(_) => Ok((0, Header { node, parent: Some(parent) })),
        Ok(k) => match program_mnemonic_spec(s.skip(k)) {
            Err(e) => Err(e),
            Ok(n) => match tree.child_of(node, s.skip(k).take(n)) {
                None => Err(undefined_header()),
                Some(next) => if 0 < k + n <= s.len() {
                    shift(k + n, more_segments_spec(tree, node, next, s.skip(k + n)))
                } else {
                    Err(undefined_header())
                },
            },
        },
    }
}

/// A compound command header: mnemonics separated by colons, each looked up
/// among the children of the node before it. The first is looked up from
/// `header`, or from the root where a colon stands before it.
pub open spec fn compound_header_spec(tree: Tree, header: NodeId, s: Seq<u8>) -> Heading {
    let colon = opt(tag_spec(s, 0x3a));
    let start = if colon == 1 {
        0
    } else {
        header
    };
    match program_mnemonic_spec(s.skip(colon)) {
        Err(e) => Err(e),
        Ok(n) => match tree.child_of(start, s.skip(colon).take(n)) {
            None => Err(undefined_header()),
            Some(node) => shift(
                colon + n,
                more_segments_spec(tree, start, node, s.skip(colon + n)),
            ),
        },
    }
}

/// A command header: a compound header or, where the input does not begin
/// like one, a common command header.
#[verifier::opaque]
pub open spec fn command_header_spec(tree: Tree, header: NodeId, s: Seq<u8>) -> Heading {
    match compound_header_spec(tree, header, s) {
        Err(ParseError::SoftError(_)) => common_header_spec(tree, s),
        other => other,
    }
}

/// What is left of the input and the header that was read agree with
/// `expected`.
pub open spec fn headed(
    input: Seq<u8>,
    r: Result<(&[u8], Header), ParseError>,
    expected: Heading,
) -> bool {
    match r {
        Ok((rest, header)) => match expected {
            Ok((n, h)) => 0 <= n <= input.len() && rest@ == input.skip(n) && header == h,
            Err(_) => false,
        },
        Err(e) => expected == Err::<(int, Header), ParseError>(e),
    }
}

/// Parses a common command program header (e.g., "*IDN").
pub fn common_command_program_header<'a>(tree: &Tree, input: &'a [u8]) -> (r: ParseResult<
    'a,
    Header,
>)
    ensures
        headed(input@, r, common_header_spec(*tree, input@)),
{
    let i1 = match tag(0x2a, input) {
        Ok((rest, _)) => rest,
        Err(_) => {
            return Err(ParseError::FatalError(Error::UndefinedHeader));
        },
    };
    let (i2, res) = program_mnemonic(i1)?;
    let n = input.len() - i2.len();
    assert(i2@ =~= input@.skip(n as int)) by {
        assert(input@.skip(1).skip(n - 1) =~= input@.skip(n as int));
    }
    // Include the asterisk in the name
    let name = slice_subrange(input, 0, n);
    proof {
        lemma_word_is_ascii(input@.skip(1), Class::Letter, Class::Mnemonic);
        assert forall|i: int| 0 <= i < name@.len() implies #[trigger] name@[i] <= 0x7f by {
            if i > 0 {
                assert(name@[i] == input@.skip(1)[i - 1]);
            }
        }
    }
    let text = ascii_text(name)?;
    match tree.child(tree.root(), text) {
        Some(node) => Ok((i2, Header { node, parent: None })),
        None => Err(ParseError::FatalError(Error::UndefinedHeader)),
    }
}

/// Looks up a mnemonic at the start of the input among the children of a
/// node.
fn segment<'a>(tree: &Tree, from: NodeId, input: &'a [u8]) -> (r: ParseResult<'a, NodeId>)
    ensures
        match r {
            Ok((rest, node)) => {
                &&& program_mnemonic_spec(input@) is Ok
                &&& 1 <= program_mnemonic_spec(input@)->Ok_0 <= input@.len()
                &&& rest@ == input@.skip(program_mnemonic_spec(input@)->Ok_0)
                &&& tree.child_of(from, input@.take(program_mnemonic_spec(input@)->Ok_0)) == Some(
                    node,
                )
            },
            Err(e) => match program_mnemonic_spec(input@) {
                Err(f) => e == f,
                Ok(n) => e == undefined_header() && tree.child_of(from, input@.take(n)) is None,
            },
        },
{
    let (rest, res) = program_mnemonic(input)?;
    proof {
        lemma_word_is_ascii(input@, Class::Letter, Class::Mnemonic);
        assert forall|i: int| 0 <= i < res@.len() implies #[trigger] res@[i] <= 0x7f by {
            assert(res@[i] == input@[i]);
        }
    }
    let text = ascii_text(res)?;
    match tree.child(from, text) {
        Some(node) => Ok((rest, node)),
        None => Err(ParseError::FatalError(Error::UndefinedHeader)),
    }
}

/// Parses a compound command program header (e.g., "SYST:ERR").
///
/// `header` is the node from which the first mnemonic is looked up, unless
/// a colon before it asks for the root.
pub fn compound_command_program_header<'a>(tree: &Tree, header: NodeId, input: &'a [u8]) -> (r:
    ParseResult<'a, Header>)
    ensures
        headed(input@, r, compound_header_spec(*tree, header, input@)),
{
    let colon = tag(0x3a, input);
    let start = if colon.is_ok() {
        tree.root()
    } else {
        header
    };
    let ghost c = opt(tag_spec(input@, 0x3a));
    let i0 = after(input, colon);
    assert(i0@ =~= input@.skip(c));
    let (i1, first_node) = segment(tree, start, i0)?;
    let ghost expected = compound_header_spec(*tree, header, input@);
    let mut parent = start;
    let mut node = first_node;
    let mut rest = i1;
    assert(rest@ =~= input@.skip(input@.len() - rest@.len())) by {
        let n = program_mnemonic_spec(input@.skip(c))->Ok_0;
        assert(input@.skip(c).skip(n) =~= input@.skip(c + n));
    }
    loop
        invariant
            rest@.len() <= input@.len(),
            rest@ == input@.skip(input@.len() - rest@.len()),
            expected == compound_header_spec(*tree, header, input@),
            expected == shift(
                input@.len() - rest@.len(),
                more_segments_spec(*tree, parent, node, rest@),
            ),
        ensures
            rest@.len() <= input@.len(),
            rest@ == input@.skip(input@.len() - rest@.len()),
            expected == Ok::<(int, Header), ParseError>(
                (input@.len() - rest@.len(), Header { node, parent: Some(parent) }),
            ),
        decreases rest@.len(),
    {
        let ghost done = input@.len() - rest@.len();
        let i = match header_separator(rest) {
            Ok((i, _)) => i,
            Err(_) => {
                break ;
            },
        };
        let ghost k = header_separator_spec(rest@)->Ok_0;
        proof {
            lemma_separator_bounds(rest@, 0x3a, Error::HeaderSeparatorError);
        }
        let (i, next) = segment(tree, node, i)?;
        let ghost n = program_mnemonic_spec(rest@.skip(k))->Ok_0;
        assert(i@ =~= rest@.skip(k + n)) by {
            assert(rest@.skip(k).skip(n) =~= rest@.skip(k + n));
        }
        assert(i@ =~= input@.skip(done + k + n)) by {
            assert(input@.skip(done).skip(k + n) =~= input@.skip(done + k + n));
        }
        parent = node;
        node = next;
        rest = i;
    }
    Ok((rest, Header { node, parent: Some(parent) }))
}

/// Parses the command program header (both common and compound).
pub fn command_program_header<'a>(tree: &Tree, header: NodeId, input: &'a [u8]) -> (r: ParseResult<
    'a,
    Header,
>)
    ensures
        headed(input@, r, command_header_spec(*tree, header, input@)),
{
    reveal(command_header_spec);
    match compound_command_program_header(tree, header, input) {
        Err(ParseError::SoftError(_)) => common_command_program_header(tree, input),
        other => other,
    }
}

/// A program mnemonic: a letter, then letters, digits and underscores.
pub open spec fn is_mnemonic(segment: Seq<u8>) -> bool {
    &&& segment.len() > 0
    &&& member(Class::Letter, segment[0])
    &&& forall|i: int| 1 <= i < segment.len() ==> member(Class::Mnemonic, #[trigger] segment[i])
}

/// The segments of a path, each behind a colon.
pub open spec fn segments_text(path: Seq<Seq<u8>>) -> Seq<u8>
    decreases path.len(),
{
    if path.len() == 0 {
        Seq::empty()
    } else {
        seq![0x3au8] + path.first() + segments_text(path.drop_first())
    }
}

/// The text of a compound header: the segments of a path with colons
/// between them.
pub open spec fn header_text(path: Seq<Seq<u8>>) -> Seq<u8> {
    if path.len() == 0 {
        Seq::empty()
    } else {
        path.first() + segments_text(path.drop_first())
    }
}

/// The input goes on with a byte that cannot belong to a header: no byte of
/// a mnemonic, no white space and no colon.
pub open spec fn ends_header(rest: Seq<u8>) -> bool {
    &&& rest.len() > 0
    &&& !member(Class::Mnemonic, rest[0])
    &&& !member(Class::Whitespace, rest[0])
    &&& rest[0] != 0x3a
}

/// What a header that names the path `path` from the node `start` makes of
/// the tree: the node that the path leads to, with the node before it as
/// parent, or an undefined header where the path leads nowhere.
pub open spec fn heading_of(tree: Tree, start: NodeId, path: Seq<Seq<u8>>, used: int) -> Heading {
    match tree.resolve(start, path) {
        Some(node) => Ok(
            (
                used,
                Header { node, parent: tree.resolve(start, path.drop_last()) },
            ),
        ),
        None => Err(undefined_header()),
    }
}

/// A mnemonic at the start of the input, behind which the input goes on
/// with a byte that is no byte of a mnemonic, is read as a whole.
proof fn lemma_mnemonic_is_read(segment: Seq<u8>, rest: Seq<u8>)
    requires
        is_mnemonic(segment),
        rest.len() > 0,
        !member(Class::Mnemonic, rest[0]),
    ensures
        program_mnemonic_spec(segment + rest) == Ok::<int, ParseError>(segment.len() as int),
        (segment + rest).take(segment.len() as int) == segment,
        (segment + rest).skip(segment.len() as int) == rest,
{
    let s = segment + rest;
    let tail = s.skip(1);
    assert(s[0] == segment[0]);
    assert forall|i: int| 0 <= i < segment.len() - 1 implies member(
        Class::Mnemonic,
        #[trigger] tail[i],
    ) by {
        assert(tail[i] == segment[i + 1]);
    }
    assert(tail[segment.len() - 1] == rest[0]);
    lemma_run_is(tail, Class::Mnemonic, segment.len() - 1);
    assert(s.take(segment.len() as int) =~= segment);
    assert(s.skip(segment.len() as int) =~= rest);
}

/// Where the segments of a path follow the segment that led to `node`, the
/// rest of the header is read as the path from `node`.
proof fn lemma_segments_resolve(
    tree: Tree,
    parent: NodeId,
    node: NodeId,
    path: Seq<Seq<u8>>,
    rest: Seq<u8>,
)
    requires
        forall|i: int| 0 <= i < path.len() ==> is_mnemonic(#[trigger] path[i]),
        ends_header(rest),
    ensures
        more_segments_spec(tree, parent, node, segments_text(path) + rest) == match tree.resolve(
            node,
            path,
        ) {
            Some(end) => Ok::<(int, Header), ParseError>(
                (
                    segments_text(path).len() as int,
                    Header {
                        node: end,
                        parent: if path.len() == 0 {
                            Some(parent)
                        } else {
                            tree.resolve(node, path.drop_last())
                        },
                    },
                ),
            ),
            None => Err::<(int, Header), ParseError>(undefined_header()),
        },
    decreases path.len(),
{
    let s = segments_text(path) + rest;
    if path.len() == 0 {
        assert(s =~= rest);
        assert(run_len(rest, Class::Whitespace) == 0);
    } else {
        let first = path.first();
        let others = path.drop_first();
        let behind = segments_text(others) + rest;
        assert(s =~= seq![0x3au8] + (first + behind));
        assert(s[0] == 0x3a);
        assert(run_len(s, Class::Whitespace) == 0);
        assert(s.skip(0) =~= s);
        assert(s.skip(1) =~= first + behind);
        assert(is_mnemonic(path[0]));
        assert((first + behind)[0] == first[0]);
        assert(run_len(first + behind, Class::Whitespace) == 0);
        assert(header_separator_spec(s) == Ok::<int, ParseError>(1));
        assert(behind.len() > 0 && !member(Class::Mnemonic, behind[0])) by {
            if others.len() == 0 {
                assert(behind =~= rest);
            } else {
                assert(behind[0] == 0x3a);
            }
        }
        lemma_mnemonic_is_read(first, behind);
        assert(s.skip(1 + first.len() as int) =~= behind) by {
            assert(s.skip(1).skip(first.len() as int) =~= s.skip(1 + first.len() as int));
        }
        assert forall|i: int| 0 <= i < others.len() implies is_mnemonic(#[trigger] others[i]) by {
            assert(others[i] == path[i + 1]);
        }
        match tree.child_of(node, first) {
            Some(next) => {
                lemma_segments_resolve(tree, node, next, others, rest);
                assert(segments_text(path).len() == 1 + first.len() + segments_text(others).len());
                if others.len() > 0 {
                    assert(path.drop_last().first() == first);
                    assert(path.drop_last().drop_first() =~= others.drop_last());
                } else {
                    assert(path.drop_last() =~= Seq::<Seq<u8>>::empty());
                }
            },
            None => {},
        }
    }
}

/// A compound header that spells the segments of a path, with colons
/// between them and no white space, is read as that path: it names the
/// node that the path leads to from `header`, and is undefined where the
/// path leads nowhere.
pub proof fn lemma_header_resolves(tree: Tree, header: NodeId, path: Seq<Seq<u8>>, rest: Seq<u8>)
    requires
        path.len() > 0,
        forall|i: int| 0 <= i < path.len() ==> is_mnemonic(#[trigger] path[i]),
        ends_header(rest),
    ensures
        compound_header_spec(tree, header, header_text(path) + rest) == heading_of(
            tree,
            header,
            path,
            header_text(path).len() as int,
        ),
        command_header_spec(tree, header, header_text(path) + rest) == heading_of(
            tree,
            header,
            path,
            header_text(path).len() as int,
        ),
{
    reveal(command_header_spec);
    let first = path.first();
    let others = path.drop_first();
    let behind = segments_text(others) + rest;
    let s = header_text(path) + rest;
    assert(s =~= first + behind);
    assert(is_mnemonic(path[0]));
    assert(s[0] == first[0]);
    assert(s.skip(0) =~= s);
    assert(behind.len() > 0 && !member(Class::Mnemonic, behind[0])) by {
        if others.len() == 0 {
            assert(behind =~= rest);
        } else {
            assert(behind[0] == 0x3a);
        }
    }
    lemma_mnemonic_is_read(first, behind);
    assert forall|i: int| 0 <= i < others.len() implies is_mnemonic(#[trigger] others[i]) by {
        assert(others[i] == path[i + 1]);
    }
    assert(opt(tag_spec(s, 0x3a)) == 0);
    match tree.child_of(header, first) {
        Some(next) => {
            lemma_segments_resolve(tree, header, next, others, rest);
            assert(header_text(path).len() == first.len() + segments_text(others).len());
            assert(tree.resolve(header, path) == tree.resolve(next, others));
            if others.len() > 0 {
                assert(path.drop_last().first() == first);
                assert(path.drop_last().drop_first() =~= others.drop_last());
                assert(tree.resolve(header, path.drop_last()) == tree.resolve(
                    next,
                    others.drop_last(),
                ));
                assert(others.drop_last().push(others.last()) =~= others);
                tree.lemma_resolve_push(next, others.drop_last(), others.last());
            } else {
                assert(path.drop_last() =~= Seq::<Seq<u8>>::empty());
                assert(tree.resolve(header, path.drop_last()) == Some(header));
            }
        },
        None => {
            assert(tree.resolve(header, path) is None);
        },
    }
}

/// The name of a common command: an asterisk and a mnemonic.
pub open spec fn is_common(segment: Seq<u8>) -> bool {
    segment.len() > 1 && segment[0] == 0x2a && is_mnemonic(segment.skip(1))
}

/// A path that a header can spell: mnemonics, or the name of a common
/// command alone.
pub open spec fn is_header(path: Seq<Seq<u8>>) -> bool {
    &&& path.len() > 0
    &&& (path.len() == 1 && is_common(path[0])) || forall|i: int|
        0 <= i < path.len() ==> is_mnemonic(#[trigger] path[i])
}

/// The text of a call without arguments: the header, a question mark for a
/// query, and a newline.
pub open spec fn call_text(path: Seq<Seq<u8>>, query: bool) -> Seq<u8> {
    if query {
        header_text(path) + seq![0x3fu8, 0x0au8]
    } else {
        header_text(path) + seq![0x0au8]
    }
}

/// The name of a common command is read as a whole, and looked up among the
/// children of the root.
pub proof fn lemma_common_header_resolves(
    tree: Tree,
    header: NodeId,
    name: Seq<u8>,
    rest: Seq<u8>,
)
    requires
        is_common(name),
        rest.len() > 0,
        !member(Class::Mnemonic, rest[0]),
    ensures
        command_header_spec(tree, header, name + rest) == match tree.child_of(0, name) {
            Some(node) => Ok::<(int, Header), ParseError>(
                (name.len() as int, Header { node, parent: None }),
            ),
            None => Err::<(int, Header), ParseError>(undefined_header()),
        },
{
    reveal(command_header_spec);
    let s = name + rest;
    assert(s[0] == 0x2a);
    assert(s.skip(0) =~= s);
    assert(s.skip(1) =~= name.skip(1) + rest);
    lemma_mnemonic_is_read(name.skip(1), rest);
    assert(s.take(1 + name.skip(1).len() as int) =~= name);
}

/// A call without arguments that spells a path which resolves, in letters
/// of any case, is parsed as a call of the node that the path leads to.
pub proof fn lemma_call_is_parsed(tree: Tree, path: Seq<Seq<u8>>, query: bool)
    requires
        is_header(path),
        tree.resolve(0, path) is Some,
    ensures
        parse_spec(tree, 0, call_text(path, query)) == Ok::<(int, Option<CallSpec>), ParseError>(
            (
                call_text(path, query).len() as int,
                Some(
                    CallSpec {
                        node: tree.resolve(0, path)->0,
                        query,
                        args: Seq::empty(),
                        header: if is_common(path[0]) {
                            None
                        } else {
                            tree.resolve(0, path.drop_last())
                        },
                        terminated: true,
                    },
                ),
            ),
        ),
{
    reveal(tail_spec);
    let head = header_text(path);
    let s = call_text(path, query);
    let rest = if query {
        seq![0x3fu8, 0x0au8]
    } else {
        seq![0x0au8]
    };
    assert(s == head + rest);
    assert(head.len() > 0 && s[0] == head[0] && (member(Class::Letter, head[0]) || head[0]
        == 0x2a)) by {
        assert(head =~= path.first() + segments_text(path.drop_first()));
        assert(head[0] == path[0][0]);
        if is_common(path[0]) {
        } else {
            assert(is_mnemonic(path[0]));
        }
    }
    assert(run_len(s, Class::Whitespace) == 0);
    assert(s.skip(0) =~= s);
    if path.len() == 1 && is_common(path[0]) {
        assert(segments_text(path.drop_first()) =~= Seq::<u8>::empty());
        assert(head =~= path[0]);
        lemma_common_header_resolves(tree, 0, path[0], rest);
        assert(path.drop_first() =~= Seq::<Seq<u8>>::empty());
        assert(tree.resolve(0, path) == tree.child_of(0, path[0])) by {
            match tree.child_of(0, path[0]) {
                Some(next) => {
                    assert(tree.resolve(next, path.drop_first()) == Some(next));
                },
                None => {},
            }
        }
    } else {
        assert(!is_common(path[0])) by {
            assert(is_mnemonic(path[0]));
        }
        lemma_header_resolves(tree, 0, path, rest);
    }
    let h = head.len() as int;
    assert(s.skip(h) =~= rest);
    let q = opt(tag_spec(rest, 0x3f));
    let last = rest.skip(q);
    assert(last =~= seq![0x0au8]);
    assert(s.skip(h + q) =~= last);
    assert(run_len(last, Class::Whitespace) == 0);
    assert(last.skip(0) =~= last);
}

/// The first of two alternatives, unless it fails softly: then the second.
pub open spec fn or_else(a: Item, b: Item) -> Item {
    match a {
        Err(ParseError::SoftError(_)) => b,
        other => other,
    }
}

/// An argument: characters, a decimal number, a hexadecimal, binary or
/// octal number, a string, or a block, whichever the input begins like.
#[verifier::opaque]
pub open spec fn argument_spec(s: Seq<u8>) -> Item {
    or_else(
        mnemonic_spec(s),
        or_else(
            decimal_data_spec(s),
            or_else(
                hexadecimal_data_spec(s),
                or_else(
                    binary_data_spec(s),
                    or_else(octal_data_spec(s), or_else(string_data_spec(s), block_data_spec(s))),
                ),
            ),
        ),
    )
}

/// Parses an argument value.
pub fn argument<'a>(input: &'a [u8]) -> (r: ParseResult<'a, Value<'a>>)
    ensures
        valued(input@, r, argument_spec(input@)),
{
    reveal(argument_spec);
    match mnemonic(input) {
        Err(ParseError::SoftError(_)) => {},
        other => {
            return other;
        },
    }
    match decimal_numeric_program_data(input) {
        Err(ParseError::SoftError(_)) => {},
        other => {
            return other;
        },
    }
    match hexadecimal_numeric_program_data(input) {
        Err(ParseError::SoftError(_)) => {},
        other => {
            return other;
        },
    }
    match binary_numeric_program_data(input) {
        Err(ParseError::SoftError(_)) => {},
        other => {
            return other;
        },
    }
    match octal_numeric_program_data(input) {
        Err(ParseError::SoftError(_)) => {},
        other => {
            return other;
        },
    }
    match string_program_data(input) {
        Err(ParseError::SoftError(_)) => {},
        other => {
            return other;
        },
    }
    arbitrary_block_program_data(input)
}


/// The outside type `heapless::Vec`, a vector of fixed capacity.
#[verifier::external_type_specification]
#[verifier::external_body]
#[verifier::reject_recursive_types(T)]
pub struct ExHeaplessVec<T, const N: usize>(heapless::Vec<T, N>);

/// The values that a list of arguments holds, in their order.
pub uninterp spec fn arg_items(args: heapless::Vec<Value<'_>, MAX_ARGS>) -> Seq<Value<'_>>;

/// Calls `heapless::Vec::new`, which makes an empty vector.
#[verifier::external_body]
fn new_args<'a>() -> (r: heapless::Vec<Value<'a>, MAX_ARGS>)
    ensures
        arg_items(r).len() == 0,
{
    heapless::Vec::new()
}

/// Calls `heapless::Vec::push`, which adds the value at the end where the
/// vector holds fewer values than its capacity, and else leaves the vector
/// as it is and hands the value back.
#[verifier::external_body]
fn push_arg<'a>(args: &mut heapless::Vec<Value<'a>, MAX_ARGS>, value: Value<'a>) -> (r: Result<
    (),
    Value<'a>,
>)
    ensures
        match r {
            Ok(_) => arg_items(*old(args)).len() < MAX_ARGS && arg_items(*final(args)) == arg_items(
                *old(args),
            ).push(value),
            Err(back) => arg_items(*old(args)).len() >= MAX_ARGS && arg_items(*final(args))
                == arg_items(*old(args)) && back == value,
        },
{
    args.push(value)
}

/// Calls `heapless::Vec::as_slice`, which gives the values of the vector
/// in their order.
#[verifier::external_body]
fn args_as_slice<'b, 'a>(args: &'b heapless::Vec<Value<'a>, MAX_ARGS>) -> (r: &'b [Value<'a>])
    ensures
        r@ == arg_items(*args),
{
    args.as_slice()
}

/// The model of each value.
pub open spec fn lexemes(values: Seq<Value<'_>>) -> Seq<Lexeme> {
    Seq::new(values.len(), |i: int| values[i]@)
}

/// The failure of an argument for which there is no room.
pub open spec fn too_many_arguments() -> ParseError {
    ParseError::SoftError(Some(Error::UnexpectedNumberOfParameters))
}

/// A scan that ran after `k` bytes were consumed.
pub open spec fn shift_scan(k: int, r: Scan) -> Scan {
    match r {
        Ok(n) => Ok(k + n),
        Err(e) => Err(e),
    }
}

/// The arguments after the first: as long as an argument separator
/// follows, an argument must follow it, and there must be room for it.
/// The result holds the arguments read so far, also where it fails.
pub open spec fn more_arguments_spec(s: Seq<u8>, items: Seq<Lexeme>) -> (Seq<Lexeme>, Scan)
    decreases s.len(),
{
    match argument_separator_spec(s) {
        Err(_) => (items, Ok(0)),
        Ok(k) => match argument_spec(s.skip(k)) {
            Err(e) => (items, Err(e)),
            Ok((n, value)) => if items.len() >= MAX_ARGS {
                (items, Err(too_many_arguments()))
            } else if 0 < k + n <= s.len() {
                let (all, scan) = more_arguments_spec(s.skip(k + n), items.push(value));
                (all, shift_scan(k + n, scan))
            } else {
                (items, Err(too_many_arguments()))
            },
        },
    }
}

/// Arguments separated by commas, at least one, added to `items`.
#[verifier::opaque]
pub open spec fn arguments_spec(s: Seq<u8>, items: Seq<Lexeme>) -> (Seq<Lexeme>, Scan) {
    match argument_spec(s) {
        Err(e) => (items, Err(e)),
        Ok((n, value)) => if items.len() >= MAX_ARGS {
            (items, Err(too_many_arguments()))
        } else {
            let (all, scan) = more_arguments_spec(s.skip(n), items.push(value));
            (all, shift_scan(n, scan))
        },
    }
}

/// Parses multiple arguments separated by commas, and adds them to `args`.
///
/// Fails where the first argument is missing, where no argument follows a
/// comma, and where `args` has no room for an argument. What was read
/// before the failure stays in `args`.
pub fn arguments<'a>(args: &mut heapless::Vec<Value<'a>, MAX_ARGS>, input: &'a [u8]) -> (r:
    ParseResult<'a, ()>)
    ensures
        lexemes(arg_items(*final(args))) == arguments_spec(
            input@,
            lexemes(arg_items(*old(args))),
        ).0,
        skipped(input@, r, arguments_spec(input@, lexemes(arg_items(*old(args)))).1),
{
    reveal(arguments_spec);
    let ghost start = lexemes(arg_items(*args));
    let ghost expected = arguments_spec(input@, start);
    let (i, arg) = argument(input)?;
    if push_arg(args, arg).is_err() {
        return Err(ParseError::SoftError(Some(Error::UnexpectedNumberOfParameters)));
    }
    assert(lexemes(arg_items(*args)) =~= start.push(arg@));
    let mut rest = i;
    loop
        invariant
            rest@.len() <= input@.len(),
            rest@ == input@.skip(input@.len() - rest@.len()),
            expected == arguments_spec(input@, lexemes(arg_items(*old(args)))),
            expected.0 == more_arguments_spec(rest@, lexemes(arg_items(*args))).0,
            expected.1 == shift_scan(
                input@.len() - rest@.len(),
                more_arguments_spec(rest@, lexemes(arg_items(*args))).1,
            ),
        ensures
            rest@.len() <= input@.len(),
            rest@ == input@.skip(input@.len() - rest@.len()),
            expected == arguments_spec(input@, lexemes(arg_items(*old(args)))),
            expected.0 == lexemes(arg_items(*args)),
            expected.1 == Ok::<int, ParseError>(input@.len() - rest@.len()),
        decreases rest@.len(),
    {
        let ghost done = input@.len() - rest@.len();
        let ghost items = lexemes(arg_items(*args));
        let i = match argument_separator(rest) {
            Ok((i, _)) => i,
            Err(_) => {
                break ;
            },
        };
        let ghost k = argument_separator_spec(rest@)->Ok_0;
        proof {
            lemma_separator_bounds(rest@, 0x2c, Error::InvalidSeparator);
        }
        let (i, arg) = argument(i)?;
        let ghost n = argument_spec(rest@.skip(k))->Ok_0.0;
        assert(i@ =~= rest@.skip(k + n)) by {
            assert(rest@.skip(k).skip(n) =~= rest@.skip(k + n));
        }
        assert(i@ =~= input@.skip(done + k + n)) by {
            assert(input@.skip(done).skip(k + n) =~= input@.skip(done + k + n));
        }
        if push_arg(args, arg).is_err() {
            return Err(ParseError::SoftError(Some(Error::UnexpectedNumberOfParameters)));
        }
        assert(lexemes(arg_items(*args)) =~= items.push(arg@));
        rest = i;
    }
    Ok((rest, ()))
}

/// A command or query that was read from the input.
#[derive(Debug, PartialEq)]
pub struct CommandCall<'a> {
    /// The node that the header names.
    pub node: NodeId,
    /// Whether a question mark followed the header.
    pub query: bool,
    /// The arguments, in their order.
    pub args: heapless::Vec<Value<'a>, MAX_ARGS>,
    /// The node from which the last segment of the header was looked up:
    /// the header of the next call, if a semicolon ends this one. A common
    /// command has none.
    pub header: Option<NodeId>,
    /// Whether a newline ended the call, and not a semicolon.
    pub terminated: bool,
}

/// The model of a [`CommandCall`].
pub struct CallSpec {
    pub node: NodeId,
    pub query: bool,
    pub args: Seq<Lexeme>,
    pub header: Option<NodeId>,
    pub terminated: bool,
}

impl<'a> View for CommandCall<'a> {
    type V = CallSpec;

    open spec fn view(&self) -> CallSpec {
        CallSpec {
            node: self.node,
            query: self.query,
            args: lexemes(arg_items(self.args)),
            header: self.header,
            terminated: self.terminated,
        }
    }
}

impl<'a> CommandCall<'a> {
    /// The arguments of the call.
    pub fn arguments(&self) -> (r: &[Value<'a>])
        ensures
            lexemes(r@) == self@.args,
    {
        args_as_slice(&self.args)
    }
}

/// What [`parse`] makes of its input: the number of bytes that it consumes
/// and the call, if there is one, or the reason why it fails.
pub type Parsed = Result<(int, Option<CallSpec>), ParseError>;

/// The end of a message unit: a newline, which also ends the message, or a
/// semicolon. The result tells whether it is a newline.
pub open spec fn end_spec(s: Seq<u8>) -> Result<bool, ParseError> {
    if s.len() == 0 {
        Err(ParseError::Incomplete)
    } else if s[0] == 0x0a {
        Ok(true)
    } else if s[0] == 0x3b {
        Ok(false)
    } else {
        Err(invalid_character())
    }
}

/// What follows the header and the arguments: optional white space and the
/// end of the message unit.
pub open spec fn finish_spec(s: Seq<u8>, head: Header, query: bool, args: Seq<Lexeme>) -> Parsed {
    let b = opt(whitespace_spec(s));
    match end_spec(s.skip(b)) {
        Ok(terminated) => Ok(
            (
                b + 1,
                Some(CallSpec { node: head.node, query, args, header: head.parent, terminated }),
            ),
        ),
        Err(e) => Err(e),
    }
}

/// What follows the header and the question mark of a call: white space
/// and arguments where they follow, optional white space, and the end of
/// the unit. Arguments that fail softly count as no arguments.
#[verifier::opaque]
pub open spec fn tail_spec(s: Seq<u8>, head: Header, query: bool) -> Parsed {
    match whitespace_spec(s) {
        Ok(w) => {
            let (items, scan) = arguments_spec(s.skip(w), Seq::empty());
            match scan {
                Ok(n) => shift(w + n, finish_spec(s.skip(w + n), head, query, items)),
                Err(ParseError::SoftError(_)) => shift(
                    w,
                    finish_spec(s.skip(w), head, query, Seq::empty()),
                ),
                Err(e) => Err(e),
            }
        },
        Err(ParseError::SoftError(_)) => finish_spec(s, head, query, Seq::empty()),
        Err(e) => Err(e),
    }
}

/// A message unit: optional white space, then either nothing before the
/// end of the unit, or a header, an optional question mark, and what
/// follows them up to the end of the unit.
pub open spec fn parse_spec(tree: Tree, header: NodeId, s: Seq<u8>) -> Parsed {
    let a = opt(whitespace_spec(s));
    let s1 = s.skip(a);
    if end_spec(s1) is Ok {
        Ok((a + 1, None))
    } else {
        match command_header_spec(tree, header, s1) {
            Err(e) => Err(e),
            Ok((h, head)) => {
                let q = opt(tag_spec(s1.skip(h), 0x3f));
                shift(a + h + q, tail_spec(s1.skip(h + q), head, q == 1))
            },
        }
    }
}

/// What is left of the input and the call that was read agree with
/// `expected`.
pub open spec fn called(
    input: Seq<u8>,
    r: Result<(&[u8], Option<CommandCall<'_>>), ParseError>,
    expected: Parsed,
) -> bool {
    match r {
        Ok((rest, call)) => match expected {
            Ok((n, c)) => 0 <= n <= input.len() && rest@ == input.skip(n) && match call {
                Some(call) => c == Some(call@),
                None => c is None,
            },
            Err(_) => false,
        },
        Err(e) => expected == Err::<(int, Option<CallSpec>), ParseError>(e),
    }
}

/// A message unit that is accepted ends with a newline or a semicolon, and
/// a call in it is terminated when it is a newline.
pub proof fn lemma_unit_ends(tree: Tree, header: NodeId, s: Seq<u8>)
    requires
        parse_spec(tree, header, s) is Ok,
    ensures
        ({
            let (n, call) = parse_spec(tree, header, s)->Ok_0;
            &&& 1 <= n <= s.len()
            &&& s[n - 1] == 0x0a || s[n - 1] == 0x3b
            &&& call is Some ==> call->0.terminated == (s[n - 1] == 0x0a)
        }),
{
    let a = opt(whitespace_spec(s));
    let s1 = s.skip(a);
    lemma_run_bounds(s, Class::Whitespace);
    if end_spec(s1) is Ok {
        assert(s1[0] == s[a]);
    } else {
        let (h, head) = command_header_spec(tree, header, s1)->Ok_0;
        let q = opt(tag_spec(s1.skip(h), 0x3f));
        let s2 = s1.skip(h + q);
        lemma_header_bounds(tree, header, s1);
        lemma_tail_ends(s2, head, q == 1);
        let t = tail_spec(s2, head, q == 1)->Ok_0.0;
        assert(s2[t - 1] == s[a + h + q + t - 1]);
    }
}

/// What follows the header of a call ends with the end of the unit.
proof fn lemma_tail_ends(s: Seq<u8>, head: Header, query: bool)
    requires
        tail_spec(s, head, query) is Ok,
    ensures
        ({
            let (n, call) = tail_spec(s, head, query)->Ok_0;
            &&& 1 <= n <= s.len()
            &&& s[n - 1] == 0x0a || s[n - 1] == 0x3b
            &&& call is Some
            &&& call->0.terminated == (s[n - 1] == 0x0a)
        }),
{
    reveal(tail_spec);
    match whitespace_spec(s) {
        Ok(w) => {
            lemma_run_bounds(s, Class::Whitespace);
            let (items, scan) = arguments_spec(s.skip(w), Seq::empty());
            match scan {
                Ok(n) => {
                    lemma_arguments_bounds(s.skip(w), Seq::empty());
                    lemma_finish_ends(s.skip(w + n), head, query, items);
                    let f = finish_spec(s.skip(w + n), head, query, items)->Ok_0.0;
                    assert(s.skip(w + n)[f - 1] == s[w + n + f - 1]);
                },
                _ => {
                    lemma_finish_ends(s.skip(w), head, query, Seq::empty());
                    let f = finish_spec(s.skip(w), head, query, Seq::empty())->Ok_0.0;
                    assert(s.skip(w)[f - 1] == s[w + f - 1]);
                },
            }
        },
        _ => {
            lemma_finish_ends(s, head, query, Seq::empty());
        },
    }
}

/// What ends a message unit is its last byte.
proof fn lemma_finish_ends(s: Seq<u8>, head: Header, query: bool, args: Seq<Lexeme>)
    requires
        finish_spec(s, head, query, args) is Ok,
    ensures
        ({
            let (n, call) = finish_spec(s, head, query, args)->Ok_0;
            &&& 1 <= n <= s.len()
            &&& s[n - 1] == 0x0a || s[n - 1] == 0x3b
            &&& call is Some
            &&& call->0.terminated == (s[n - 1] == 0x0a)
        }),
{
    let b = opt(whitespace_spec(s));
    lemma_run_bounds(s, Class::Whitespace);
    assert(s.skip(b)[0] == s[b]);
}

/// A header consumes at least one byte, and no more than the input.
pub proof fn lemma_header_bounds(tree: Tree, header: NodeId, s: Seq<u8>)
    requires
        command_header_spec(tree, header, s) is Ok,
    ensures
        1 <= command_header_spec(tree, header, s)->Ok_0.0 <= s.len(),
{
    reveal(command_header_spec);
    match compound_header_spec(tree, header, s) {
        Ok(_) => {
            let colon = opt(tag_spec(s, 0x3a));
            let start: NodeId = if colon == 1 {
                0
            } else {
                header
            };
            let n = program_mnemonic_spec(s.skip(colon))->Ok_0;
            lemma_run_bounds(s.skip(colon).skip(1), Class::Mnemonic);
            let node = tree.child_of(start, s.skip(colon).take(n))->0;
            lemma_segments_bounds(tree, start, node, s.skip(colon + n));
        },
        Err(_) => {
            lemma_run_bounds(s.skip(1).skip(1), Class::Mnemonic);
        },
    }
}

/// The rest of a header consumes no more than the input.
proof fn lemma_segments_bounds(tree: Tree, parent: NodeId, node: NodeId, s: Seq<u8>)
    requires
        more_segments_spec(tree, parent, node, s) is Ok,
    ensures
        0 <= more_segments_spec(tree, parent, node, s)->Ok_0.0 <= s.len(),
    decreases s.len(),
{
    match header_separator_spec(s) {
        Err(_) => {},
        Ok(k) => {
            let n = program_mnemonic_spec(s.skip(k))->Ok_0;
            let next = tree.child_of(node, s.skip(k).take(n))->0;
            lemma_segments_bounds(tree, node, next, s.skip(k + n));
        },
    }
}

/// Arguments consume no more than the input.
pub proof fn lemma_arguments_bounds(s: Seq<u8>, items: Seq<Lexeme>)
    requires
        arguments_spec(s, items).1 is Ok,
    ensures
        0 <= arguments_spec(s, items).1->Ok_0 <= s.len(),
{
    reveal(arguments_spec);
    let (n, value) = argument_spec(s)->Ok_0;
    lemma_argument_bounds(s);
    lemma_more_arguments_bounds(s.skip(n), items.push(value));
}

/// The arguments after the first consume no more than the input.
proof fn lemma_more_arguments_bounds(s: Seq<u8>, items: Seq<Lexeme>)
    requires
        more_arguments_spec(s, items).1 is Ok,
    ensures
        0 <= more_arguments_spec(s, items).1->Ok_0 <= s.len(),
    decreases s.len(),
{
    match argument_separator_spec(s) {
        Err(_) => {},
        Ok(k) => {
            let (n, value) = argument_spec(s.skip(k))->Ok_0;
            lemma_more_arguments_bounds(s.skip(k + n), items.push(value));
        },
    }
}

/// An argument consumes at least one byte, and no more than the input.
pub proof fn lemma_argument_bounds(s: Seq<u8>)
    requires
        argument_spec(s) is Ok,
    ensures
        1 <= argument_spec(s)->Ok_0.0 <= s.len(),
{
    reveal(argument_spec);
    lemma_run_bounds(s.skip(1), Class::Mnemonic);
    if decimal_spec(s) is Ok {
        lemma_decimal_is_ascii(s);
        lemma_decimal_not_empty(s);
    }
    lemma_run_bounds(s.skip(2).skip(1), Class::Hexadecimal);
    lemma_run_bounds(s.skip(2).skip(1), Class::Binary);
    lemma_run_bounds(s.skip(2).skip(1), Class::Octal);
    if s.len() > 1 {
        let width = s[1] - 0x30;
        if 1 <= width <= 9 && count_spec(s.skip(2), width) is Ok {
            lemma_count_bound(s.skip(2), width);
        }
    }
    if s.len() > 0 {
        lemma_until_bounds(s.skip(1), s[0]);
    }
}

/// The first `stop` is within the input or at its end.
pub proof fn lemma_until_bounds(s: Seq<u8>, stop: u8)
    ensures
        0 <= until(s, stop) <= s.len(),
    decreases s.len(),
{
    if s.len() > 0 && s.first() != stop {
        lemma_until_bounds(s.drop_first(), stop);
    }
}

/// A decimal number holds at least one digit.
proof fn lemma_decimal_not_empty(s: Seq<u8>)
    requires
        decimal_spec(s) is Ok,
    ensures
        1 <= decimal_spec(s)->Ok_0,
{
    let a = opt(first_spec(s, Class::Sign));
    let d = opt(digits_spec(s.skip(a)));
    let m = mantissa_spec(s)->Ok_0;
    lemma_run_bounds(s.skip(a).skip(1), Class::Digit);
    lemma_fraction_is_ascii(s.skip(a + d));
    if exponent_spec(s.skip(m)) is Ok {
        let x = 1 + opt(first_spec(s.skip(m).skip(1), Class::Sign));
        lemma_run_bounds(s.skip(m).skip(x).skip(1), Class::Digit);
    }
}

/// Reads what follows the header and the arguments of a call.
fn finish<'a>(
    input: &'a [u8],
    head: Header,
    query: bool,
    args: heapless::Vec<Value<'a>, MAX_ARGS>,
) -> (r: ParseResult<'a, Option<CommandCall<'a>>>)
    ensures
        called(input@, r, finish_spec(input@, head, query, lexemes(arg_items(args)))),
{
    let ghost b = opt(whitespace_spec(input@));
    let i1 = after(input, whitespace(input));
    assert(i1@ =~= input@.skip(b));
    proof {
        lemma_run_bounds(input@, Class::Whitespace);
    }
    if i1.len() == 0 {
        return Err(ParseError::Incomplete);
    }
    let terminated = if i1[0] == 0x0a {
        true
    } else if i1[0] == 0x3b {
        false
    } else {
        return Err(ParseError::SoftError(Some(Error::InvalidCharacter)));
    };
    let rest = slice_subrange(i1, 1, i1.len());
    assert(rest@ =~= input@.skip(b + 1)) by {
        assert(input@.skip(b).skip(1) =~= input@.skip(b + 1));
    }
    Ok(
        (
            rest,
            Some(CommandCall { node: head.node, query, args, header: head.parent, terminated }),
        ),
    )
}

/// Parses a SCPI command call: one message unit.
///
/// `header` is the node from which a compound header is looked up: the
/// root at the start of a message, and the header of the call before after
/// a semicolon. A unit that holds nothing but white space gives no call. What
/// is left of the input is returned with the call.
pub fn parse<'a>(tree: &Tree, header: NodeId, input: &'a [u8]) -> (r: ParseResult<
    'a,
    Option<CommandCall<'a>>,
>)
    ensures
        called(input@, r, parse_spec(*tree, header, input@)),
{
    // Skip optional whitespace
    let ghost a = opt(whitespace_spec(input@));
    let i1 = after(input, whitespace(input));
    assert(i1@ =~= input@.skip(a));
    proof {
        lemma_run_bounds(input@, Class::Whitespace);
    }
    if i1.len() > 0 && (i1[0] == 0x0a || i1[0] == 0x3b) {
        let rest = slice_subrange(i1, 1, i1.len());
        assert(rest@ =~= input@.skip(a + 1)) by {
            assert(input@.skip(a).skip(1) =~= input@.skip(a + 1));
        }
        return Ok((rest, None));
    }
    let (i2, head) = command_program_header(tree, header, i1)?;
    let ghost h = command_header_spec(*tree, header, i1@)->Ok_0.0;
    let question = tag(0x3f, i2);
    let query = question.is_ok();
    let ghost q = opt(tag_spec(i2@, 0x3f));
    let i3 = after(i2, question);
    assert(i3@ =~= i1@.skip(h + q)) by {
        assert(i1@.skip(h).skip(q) =~= i1@.skip(h + q));
    }
    assert(i3@ =~= input@.skip(a + h + q)) by {
        assert(input@.skip(a).skip(h + q) =~= input@.skip(a + h + q));
    }
    let r = tail(i3, head, query);
    proof {
        let done = a + h + q;
        if r is Ok {
            let n = tail_spec(i3@, head, query)->Ok_0.0;
            assert(input@.skip(done).skip(n) =~= input@.skip(done + n));
        }
    }
    r
}

/// Reads what follows the header and the question mark of a call.
fn tail<'a>(input: &'a [u8], head: Header, query: bool) -> (r: ParseResult<
    'a,
    Option<CommandCall<'a>>,
>)
    ensures
        called(input@, r, tail_spec(input@, head, query)),
{
    reveal(tail_spec);
    let mut args = new_args();
    assert(lexemes(arg_items(args)) =~= Seq::<Lexeme>::empty());
    let rest = match whitespace(input) {
        Ok((i, _)) => {
            match arguments(&mut args, i) {
                Ok((rest, _)) => rest,
                Err(ParseError::SoftError(_)) => {
                    args = new_args();
                    assert(lexemes(arg_items(args)) =~= Seq::<Lexeme>::empty());
                    i
                },
                Err(e) => {
                    return Err(e);
                },
            }
        },
        Err(ParseError::SoftError(_)) => input,
        Err(e) => {
            return Err(e);
        },
    };
    let r = finish(rest, head, query, args);
    proof {
        let done = input@.len() - rest@.len();
        assert(rest@ =~= input@.skip(done));
        if whitespace_spec(input@) is Ok {
            let w = whitespace_spec(input@)->Ok_0;
            lemma_run_bounds(input@, Class::Whitespace);
            if arguments_spec(input@.skip(w), Seq::empty()).1 is Ok {
                let n = arguments_spec(input@.skip(w), Seq::empty()).1->Ok_0;
                assert(input@.skip(w).skip(n) =~= input@.skip(w + n));
            }
        } else {
            assert(input@.skip(0) =~= input@);
        }
        if r is Ok {
            let n = finish_spec(rest@, head, query, lexemes(arg_items(args)))->Ok_0.0;
            assert(input@.skip(done).skip(n) =~= input@.skip(done + n));
        }
    }
    r
}

/// What is left of the input after a message unit that failed: the
/// bytes behind the first semicolon or newline, and whether it is a newline.
/// Where the input holds neither, nothing is left.
pub open spec fn resync_spec(s: Seq<u8>) -> (int, bool)
    decreases s.len(),
{
    if s.len() == 0 {
        (0, false)
    } else if s.first() == 0x0a {
        (1, true)
    } else if s.first() == 0x3b {
        (1, false)
    } else {
        let (n, line) = resync_spec(s.drop_first());
        (n + 1, line)
    }
}

/// Finds the start of the next message unit after one that failed.
///
/// Returns what follows the first semicolon or newline, and whether it is
/// a newline. Where the input holds neither, nothing is left of it.
pub fn resynchronize<'a>(input: &'a [u8]) -> (r: (&'a [u8], bool))
    ensures
        0 <= resync_spec(input@).0 <= input@.len(),
        r.0@ == input@.skip(resync_spec(input@).0),
        r.1 == resync_spec(input@).1,
{
    let mut i: usize = 0;
    assert(input@.skip(0) =~= input@);
    proof {
        lemma_resync_bounds(input@);
    }
    while i < input.len()
        invariant
            i <= input@.len(),
            resync_spec(input@).0 == i + resync_spec(input@.skip(i as int)).0,
            resync_spec(input@).1 == resync_spec(input@.skip(i as int)).1,
            0 <= resync_spec(input@.skip(i as int)).0 <= input@.len() - i,
        decreases input@.len() - i,
    {
        let ghost here = input@.skip(i as int);
        assert(here.first() == input@[i as int]);
        assert(here.drop_first() =~= input@.skip(i as int + 1));
        proof {
            lemma_resync_bounds(here.drop_first());
        }
        if input[i] == 0x0a {
            return (slice_subrange(input, i + 1, input.len()), true);
        }
        if input[i] == 0x3b {
            return (slice_subrange(input, i + 1, input.len()), false);
        }
        i += 1;
    }
    (slice_subrange(input, input.len(), input.len()), false)
}

/// What is skipped after a failure is within the input.
pub proof fn lemma_resync_bounds(s: Seq<u8>)
    ensures
        0 <= resync_spec(s).0 <= s.len(),
        s.len() > 0 ==> resync_spec(s).0 >= 1,
    decreases s.len(),
{
    if s.len() > 0 && s.first() != 0x0a && s.first() != 0x3b {
        lemma_resync_bounds(s.drop_first());
    }
}

} // verus!
