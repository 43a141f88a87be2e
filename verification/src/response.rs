//! The encoding of responses: what a handler returns becomes the text that
//! is sent back.

use vstd::prelude::*;
use vstd::utf8::encode_utf8;
use vstd::utf8::{is_ascii_chars, is_ascii_chars_encode_utf8};
use crate::error::Error;
use crate::parser::{block_data_spec, count_spec, ParseError};
use crate::value::{digit_value, digits_value, integer_value, Lexeme};

verus! {

/// SCPI characters
///
/// This represents a choice or predefined value in SCPI. It is sent as it
/// is, without quotes.
#[derive(Debug, Clone, Copy, PartialEq, Eq)]
pub struct Characters<'a>(pub &'a str);

/// Arbitrary data
///
/// Contains arbitrary binary data. It is sent as a block with its length
/// in front.
#[derive(Debug, Clone, Copy, PartialEq, Eq)]
pub struct Arbitrary<'a>(pub &'a [u8]);

/// The byte that is written for a character: its code modulo 256.
pub open spec fn char_byte(c: char) -> u8 {
    (c as u32 % 256) as u8
}

/// What a write makes of a sink that held `before` and now holds `after`:
/// the bytes are added where they fit within the limit of the sink, and
/// else the write fails with `TooMuchData` and the sink stays as it was.
pub open spec fn appended(
    before: Seq<u8>,
    limit: nat,
    after: Seq<u8>,
    after_limit: nat,
    bytes: Seq<u8>,
    r: Result<(), Error>,
) -> bool {
    &&& after_limit == limit
    &&& match r {
        Ok(_) => before.len() + bytes.len() <= limit && after == before + bytes,
        Err(e) => e == Error::TooMuchData && before.len() + bytes.len() > limit && after == before,
    }
}

/// A sink for the bytes of a response.
///
/// A sink that is verified states what it holds and how much it can hold,
/// and its methods are proved against that. The bodies that the two
/// specification functions have here stand in for a sink that is not
/// verified, of which nothing is proved.
pub trait Write {
    /// The bytes that were written to the sink.
    open spec fn written(&self) -> Seq<u8> {
        Seq::empty()
    }

    /// The number of bytes that the sink can hold.
    open spec fn limit(&self) -> nat {
        0
    }

    /// Writes bytes.
    fn write_bytes(&mut self, bytes: &[u8]) -> (r: Result<(), Error>)
        ensures
            appended(
                old(self).written(),
                old(self).limit(),
                final(self).written(),
                final(self).limit(),
                bytes@,
                r,
            ),
    ;

    /// Writes one character as one byte.
    fn write_char(&mut self, c: char) -> (r: Result<(), Error>)
        ensures
            appended(
                old(self).written(),
                old(self).limit(),
                final(self).written(),
                final(self).limit(),
                seq![char_byte(c)],
                r,
            ),
    ;

    /// Writes the bytes of a string.
    fn write_str(&mut self, s: &str) -> (r: Result<(), Error>)
        ensures
            appended(
                old(self).written(),
                old(self).limit(),
                final(self).written(),
                final(self).limit(),
                encode_utf8(s@),
                r,
            ),
    ;
}

/// Adds bytes to a vector that may hold up to `limit` bytes.
fn extend(sink: &mut Vec<u8>, limit: usize, bytes: &[u8]) -> (r: Result<(), Error>)
    ensures
        appended(old(sink)@, limit as nat, final(sink)@, limit as nat, bytes@, r),
{
    let held = sink.len();
    if held > limit || bytes.len() > limit - held {
        return Err(Error::TooMuchData);
    }
    let mut i: usize = 0;
    while i < bytes.len()
        invariant
            i <= bytes@.len(),
            sink@ == old(sink)@ + bytes@.take(i as int),
        decreases bytes@.len() - i,
    {
        sink.push(bytes[i]);
        assert(bytes@.take(i as int + 1) =~= bytes@.take(i as int).push(bytes@[i as int]));
        i += 1;
    }
    assert(bytes@.take(bytes@.len() as int) =~= bytes@);
    Ok(())
}

/// The low byte of a character.
fn byte_of(c: char) -> (r: u8)
    ensures
        r == char_byte(c),
{
    (c as u32 % 256) as u8
}

impl Write for Vec<u8> {
    open spec fn written(&self) -> Seq<u8> {
        self@
    }

    open spec fn limit(&self) -> nat {
        usize::MAX as nat
    }

    fn write_bytes(&mut self, bytes: &[u8]) -> (r: Result<(), Error>) {
        extend(self, usize::MAX, bytes)
    }

    fn write_char(&mut self, c: char) -> (r: Result<(), Error>) {
        let byte = [byte_of(c)];
        assert(byte@ =~= seq![char_byte(c)]);
        extend(self, usize::MAX, byte.as_slice())
    }

    fn write_str(&mut self, s: &str) -> (r: Result<(), Error>) {
        extend(self, usize::MAX, s.as_bytes())
    }
}

/// A sink that holds at most `N` bytes.
pub struct Buffer<const N: usize> {
    bytes: Vec<u8>,
}

impl<const N: usize> Buffer<N> {
    /// The bytes in the buffer.
    pub closed spec fn view(&self) -> Seq<u8> {
        self.bytes@
    }

    /// An empty buffer.
    pub fn new() -> (r: Buffer<N>)
        ensures
            r@.len() == 0,
    {
        Buffer { bytes: Vec::new() }
    }

    /// The bytes in the buffer.
    pub fn as_slice(&self) -> (r: &[u8])
        ensures
            r@ == self@,
    {
        self.bytes.as_slice()
    }

    /// The number of bytes in the buffer.
    pub fn len(&self) -> (r: usize)
        ensures
            r == self@.len(),
    {
        self.bytes.len()
    }

    /// Tells whether the buffer is empty.
    pub fn is_empty(&self) -> (r: bool)
        ensures
            r == (self@.len() == 0),
    {
        self.bytes.len() == 0
    }

    /// Removes all bytes.
    pub fn clear(&mut self)
        ensures
            final(self)@.len() == 0,
    {
        self.bytes.clear();
    }
}

impl<const N: usize> Write for Buffer<N> {
    open spec fn written(&self) -> Seq<u8> {
        self@
    }

    open spec fn limit(&self) -> nat {
        N as nat
    }

    fn write_bytes(&mut self, bytes: &[u8]) -> (r: Result<(), Error>) {
        extend(&mut self.bytes, N, bytes)
    }

    fn write_char(&mut self, c: char) -> (r: Result<(), Error>) {
        let byte = [byte_of(c)];
        assert(byte@ =~= seq![char_byte(c)]);
        extend(&mut self.bytes, N, byte.as_slice())
    }

    fn write_str(&mut self, s: &str) -> (r: Result<(), Error>) {
        extend(&mut self.bytes, N, s.as_bytes())
    }
}

/// What a response makes of a sink that held `before` and now holds
/// `after`. It succeeds exactly where the value has an encoding and the
/// encoding fits: then the sink holds the encoding behind what it held.
/// Where it fails, it fails with `TooMuchData`, and the sink holds what it
/// held and, behind that, no more than a part of the encoding, and no
/// more than fits.
pub open spec fn responded(
    before: Seq<u8>,
    limit: nat,
    after: Seq<u8>,
    after_limit: nat,
    encoding: Option<Seq<u8>>,
    r: Result<(), Error>,
) -> bool {
    &&& after_limit == limit
    &&& before.is_prefix_of(after)
    &&& match r {
        Ok(_) => match encoding {
            Some(bytes) => before.len() + bytes.len() <= limit && after == before + bytes,
            None => false,
        },
        Err(e) => e == Error::TooMuchData && (after == before || after.len() <= limit)
            && match encoding {
            Some(bytes) => before.len() + bytes.len() > limit && after.is_prefix_of(before + bytes),
            None => true,
        },
    }
}

/// The encoding of two values, one behind the other.
pub open spec fn concat(a: Option<Seq<u8>>, b: Option<Seq<u8>>) -> Option<Seq<u8>> {
    match (a, b) {
        (Some(x), Some(y)) => Some(x + y),
        _ => None,
    }
}

/// The encodings joined by commas.
pub open spec fn joined(parts: Seq<Option<Seq<u8>>>) -> Option<Seq<u8>>
    decreases parts.len(),
{
    if parts.len() == 0 {
        Some(Seq::empty())
    } else if parts.len() == 1 {
        parts[0]
    } else {
        concat(concat(joined(parts.drop_last()), Some(seq![0x2cu8])), parts.last())
    }
}

/// Writes nothing. It fails only where the sink is beyond its limit.
fn write_nothing<W: Write>(f: &mut W) -> (r: Result<(), Error>)
    ensures
        responded(
            old(f).written(),
            old(f).limit(),
            final(f).written(),
            final(f).limit(),
            Some(Seq::empty()),
            r,
        ),
{
    let nothing: [u8; 0] = [];
    assert(nothing@ =~= Seq::<u8>::empty());
    f.write_bytes(nothing.as_slice())
}

/// A write is a response with the bytes as encoding.
pub proof fn lemma_write_responds(
    before: Seq<u8>,
    limit: nat,
    after: Seq<u8>,
    bytes: Seq<u8>,
    r: Result<(), Error>,
)
    requires
        appended(before, limit, after, limit, bytes, r),
    ensures
        responded(before, limit, after, limit, Some(bytes), r),
{
}

/// A response behind a response that succeeded is a response with both
/// encodings, one behind the other.
pub proof fn lemma_respond_then(
    before: Seq<u8>,
    limit: nat,
    between: Seq<u8>,
    after: Seq<u8>,
    a: Option<Seq<u8>>,
    b: Option<Seq<u8>>,
    r: Result<(), Error>,
)
    requires
        responded(before, limit, between, limit, a, Ok(())),
        responded(between, limit, after, limit, b, r),
    ensures
        responded(before, limit, after, limit, concat(a, b), r),
{
    let x = a->0;
    match b {
        Some(y) => {
            assert(before + (x + y) =~= between + y);
            if r is Ok {
                assert(after =~= before + (x + y));
            }
        },
        None => {},
    }
}

/// A response that failed stays failed whatever should have followed it.
pub proof fn lemma_respond_failed(
    before: Seq<u8>,
    limit: nat,
    after: Seq<u8>,
    a: Option<Seq<u8>>,
    b: Option<Seq<u8>>,
    r: Result<(), Error>,
)
    requires
        responded(before, limit, after, limit, a, r),
        r is Err,
    ensures
        responded(before, limit, after, limit, concat(a, b), r),
{
    match (a, b) {
        (Some(x), Some(y)) => {
            assert((before + x).is_prefix_of(before + (x + y)));
        },
        _ => {},
    }
}

/// A value that can be sent as a response.
///
/// A type that is verified states its encoding, and its method is proved
/// against that. The body that the specification function has here stands
/// in for a type that is not verified, of which nothing is proved.
pub trait Response {
    /// The bytes that stand for the value, if it can be sent.
    open spec fn encoding(&self) -> Option<Seq<u8>> {
        None
    }

    /// Writes the value to the sink.
    fn write_response<W: Write>(&self, f: &mut W) -> (r: Result<(), Error>)
        ensures
            responded(
                old(f).written(),
                old(f).limit(),
                final(f).written(),
                final(f).limit(),
                self.encoding(),
                r,
            ),
    ;
}

/// The digit that stands for a number below ten.
pub open spec fn digit_char(n: int) -> char {
    if n == 0 {
        '0'
    } else if n == 1 {
        '1'
    } else if n == 2 {
        '2'
    } else if n == 3 {
        '3'
    } else if n == 4 {
        '4'
    } else if n == 5 {
        '5'
    } else if n == 6 {
        '6'
    } else if n == 7 {
        '7'
    } else if n == 8 {
        '8'
    } else {
        '9'
    }
}

/// The decimal digits of a number that is not negative, without leading
/// zeros.
pub open spec fn natural_text(n: int) -> Seq<char>
    decreases n,
{
    if n < 10 {
        seq![digit_char(n)]
    } else {
        natural_text(n / 10).push(digit_char(n % 10))
    }
}

/// The decimal text of an integer: its digits, behind a minus sign where it
/// is negative.
pub open spec fn decimal_text(n: int) -> Seq<char> {
    if n < 0 {
        seq!['-'] + natural_text(-n)
    } else {
        natural_text(n)
    }
}

/// The digits of a number denote that number.
pub proof fn lemma_natural_text_reads_back(n: int)
    requires
        n >= 0,
    ensures
        digits_value(natural_text(n), 10) == Some(n),
        natural_text(n).len() > 0,
        natural_text(n)[0] != '+',
        natural_text(n)[0] != '-',
    decreases n,
{
    let digit = digit_char(n % 10);
    assert(digit_value(digit, 10) == Some(n % 10));
    if n < 10 {
        let text = natural_text(n);
        assert(text.drop_last() =~= Seq::<char>::empty());
        assert(digits_value(text.drop_last(), 10) == Some(0int));
        assert(text.last() == digit);
    } else {
        lemma_natural_text_reads_back(n / 10);
        let front = natural_text(n / 10);
        let text = front.push(digit);
        assert(text.drop_last() =~= front);
        assert(text.last() == digit);
        assert(text[0] == front[0]);
    }
}

/// The text that is written for an integer is read back as that integer:
/// what a response sends as a number, an argument takes as the same number.
pub proof fn lemma_decimal_text_reads_back(n: int)
    ensures
        integer_value(decimal_text(n), 10, true) == Some(n),
        n >= 0 ==> integer_value(decimal_text(n), 10, false) == Some(n),
{
    if n < 0 {
        lemma_natural_text_reads_back(-n);
        let text = decimal_text(n);
        assert(text[0] == '-');
        assert(text.skip(1) =~= natural_text(-n));
    } else {
        lemma_natural_text_reads_back(n);
    }
}

/// Formats an integer with `format!`, that is with `Display` for `i128`:
/// the decimal digits of the number, behind a minus sign where it is
/// negative.
#[verifier::external_body]
fn decimal_string(n: i128) -> (r: String)
    ensures
        r@ == decimal_text(n as int),
{
    format!("{}", n)
}

/// The encoding of an integer: its decimal text.
pub open spec fn integer_encoding(n: int) -> Option<Seq<u8>> {
    Some(encode_utf8(decimal_text(n)))
}

/// Writes an integer.
fn write_integer<W: Write>(n: i128, f: &mut W) -> (r: Result<(), Error>)
    ensures
        responded(
            old(f).written(),
            old(f).limit(),
            final(f).written(),
            final(f).limit(),
            integer_encoding(n as int),
            r,
        ),
{
    let text = decimal_string(n);
    f.write_str(text.as_str())
}

/// The encoding of a string: its bytes between double quotes. A double
/// quote in the string is sent as it is.
pub open spec fn quoted(text: Seq<char>) -> Option<Seq<u8>> {
    Some(seq![0x22u8] + encode_utf8(text) + seq![0x22u8])
}

/// Writes a string between double quotes.
fn write_quoted<W: Write>(s: &str, f: &mut W) -> (r: Result<(), Error>)
    ensures
        responded(
            old(f).written(),
            old(f).limit(),
            final(f).written(),
            final(f).limit(),
            quoted(s@),
            r,
        ),
{
    let ghost w0 = f.written();
    let ghost limit = f.limit();
    let ghost quote = Some(seq![0x22u8]);
    let ghost text = Some(encode_utf8(s@));
    assert(concat(concat(quote, text), quote) == quoted(s@));
    assert(char_byte('"') == 0x22u8);
    let r1 = f.write_char('"');
    let ghost w1 = f.written();
    if r1.is_err() {
        proof {
            lemma_respond_failed(w0, limit, w1, quote, text, r1);
            lemma_respond_failed(w0, limit, w1, concat(quote, text), quote, r1);
        }
        return r1;
    }
    let r2 = f.write_str(s);
    let ghost w2 = f.written();
    proof {
        lemma_respond_then(w0, limit, w1, w2, quote, text, r2);
    }
    if r2.is_err() {
        proof {
            lemma_respond_failed(w0, limit, w2, concat(quote, text), quote, r2);
        }
        return r2;
    }
    let r3 = f.write_char('"');
    proof {
        lemma_respond_then(w0, limit, w2, f.written(), concat(quote, text), quote, r3);
    }
    r3
}

impl Response for bool {
    open spec fn encoding(&self) -> Option<Seq<u8>> {
        Some(
            seq![if *self {
                0x31u8
            } else {
                0x30u8
            }],
        )
    }

    fn write_response<W: Write>(&self, f: &mut W) -> (r: Result<(), Error>) {
        assert(char_byte('1') == 0x31u8);
        assert(char_byte('0') == 0x30u8);
        if *self {
            f.write_char('1')
        } else {
            f.write_char('0')
        }
    }
}

impl Response for () {
    open spec fn encoding(&self) -> Option<Seq<u8>> {
        Some(Seq::empty())
    }

    fn write_response<W: Write>(&self, f: &mut W) -> (r: Result<(), Error>) {
        write_nothing(f)
    }
}

impl Response for Characters<'_> {
    open spec fn encoding(&self) -> Option<Seq<u8>> {
        Some(encode_utf8(self.0@))
    }

    fn write_response<W: Write>(&self, f: &mut W) -> (r: Result<(), Error>) {
        f.write_str(self.0)
    }
}

/// A number that is no finite number, and has a fixed text in its place.
#[derive(Debug, Clone, Copy, PartialEq, Eq)]
pub enum NotFinite {
    /// No number at all.
    NotANumber,
    /// A number above all numbers.
    Infinity,
    /// A number below all numbers.
    NegativeInfinity,
}

impl NotFinite {
    /// The text that is sent in the place of the number.
    pub open spec fn text_spec(self) -> Seq<char> {
        match self {
            NotFinite::NotANumber => "9.91E+37"@,
            NotFinite::Infinity => "9.9E+37"@,
            NotFinite::NegativeInfinity => "-9.9E+37"@,
        }
    }

    /// The text that is sent in the place of the number.
    pub fn text(&self) -> (r: &'static str)
        ensures
            r@ == self.text_spec(),
    {
        match self {
            NotFinite::NotANumber => "9.91E+37",
            NotFinite::Infinity => "9.9E+37",
            NotFinite::NegativeInfinity => "-9.9E+37",
        }
    }
}

/// The text that stands in for a number, if the number is not finite: one
/// text for what is not a number, and one each for the infinite numbers above
/// and below all others. A finite number has a text of its own.
pub open spec fn not_finite_spec(nan: bool, infinite: bool, negative: bool) -> Option<NotFinite> {
    if nan {
        Some(NotFinite::NotANumber)
    } else if infinite {
        if negative {
            Some(NotFinite::NegativeInfinity)
        } else {
            Some(NotFinite::Infinity)
        }
    } else {
        None
    }
}

/// Tells which fixed text, if any, stands in for a number that is not a
/// number (`nan`) or is infinite, with the given sign.
pub fn not_finite(nan: bool, infinite: bool, negative: bool) -> (r: Option<NotFinite>)
    ensures
        r == not_finite_spec(nan, infinite, negative),
{
    if nan {
        Some(NotFinite::NotANumber)
    } else if infinite {
        if negative {
            Some(NotFinite::NegativeInfinity)
        } else {
            Some(NotFinite::Infinity)
        }
    } else {
        None
    }
}

impl Response for NotFinite {
    open spec fn encoding(&self) -> Option<Seq<u8>> {
        Some(encode_utf8(self.text_spec()))
    }

    fn write_response<W: Write>(&self, f: &mut W) -> (r: Result<(), Error>) {
        f.write_str(self.text())
    }
}

/// The encoding of a block of bytes: `#`, the number of digits of the
/// length, the length, and the bytes. A block whose length has more than
/// nine digits has none.
pub open spec fn block_encoding(bytes: Seq<u8>) -> Option<Seq<u8>> {
    let length = encode_utf8(decimal_text(bytes.len() as int));
    if length.len() > 9 {
        None
    } else {
        Some(seq![0x23u8] + encode_utf8(natural_text(length.len() as int)) + length + bytes)
    }
}

/// The text of a number is made of the digits `0` to `9`, each of which is
/// one byte.
proof fn lemma_natural_text_bytes(n: int)
    requires
        n >= 0,
    ensures
        natural_text(n).len() >= 1,
        is_ascii_chars(natural_text(n)),
        encode_utf8(natural_text(n)).len() == natural_text(n).len(),
        forall|i: int|
            0 <= i < natural_text(n).len() ==> 0x30 <= #[trigger] encode_utf8(natural_text(n))[i]
                <= 0x39,
        encode_utf8(natural_text(n)).last() == 0x30 + n % 10,
        n >= 10 ==> encode_utf8(natural_text(n)).drop_last() == encode_utf8(natural_text(n / 10)),
    decreases n,
{
    let text = natural_text(n);
    let digit = digit_char(n % 10);
    assert(digit as u8 == 0x30 + n % 10);
    if n >= 10 {
        lemma_natural_text_bytes(n / 10);
        let front = natural_text(n / 10);
        assert(text =~= front.push(digit));
        assert forall|i: int| 0 <= i < text.len() implies '\0' <= #[trigger] text[i] <= '\u{7f}' by {
            if i < front.len() {
                assert(text[i] == front[i]);
            }
        }
        is_ascii_chars_encode_utf8(text);
        is_ascii_chars_encode_utf8(front);
        assert forall|i: int| 0 <= i < text.len() implies 0x30 <= #[trigger] encode_utf8(text)[i]
            <= 0x39 by {
            assert(encode_utf8(text)[i] == text[i] as u8);
            if i < front.len() {
                assert(text[i] == front[i]);
                assert(encode_utf8(front)[i] == front[i] as u8);
            }
        }
        assert(encode_utf8(text).drop_last() =~= encode_utf8(front)) by {
            assert forall|i: int| 0 <= i < front.len() implies encode_utf8(text)[i]
                == encode_utf8(front)[i] by {
                assert(encode_utf8(text)[i] == text[i] as u8);
                assert(encode_utf8(front)[i] == front[i] as u8);
                assert(text[i] == front[i]);
            }
        }
        assert(encode_utf8(text).last() == text[text.len() - 1] as u8);
    } else {
        assert(text =~= seq![digit]);
        assert(text[0] == digit);
        is_ascii_chars_encode_utf8(text);
        assert(encode_utf8(text)[0] == text[0] as u8);
    }
}

/// The bytes of the text of a number are read as that number.
proof fn lemma_text_counts(n: int, more: Seq<u8>)
    requires
        n >= 0,
    ensures
        count_spec(encode_utf8(natural_text(n)) + more, natural_text(n).len() as int) == Ok::<
            int,
            ParseError,
        >(n),
    decreases n,
{
    let bytes = encode_utf8(natural_text(n));
    let s = bytes + more;
    let k = natural_text(n).len() as int;
    lemma_natural_text_bytes(n);
    assert(s[k - 1] == bytes[k - 1]);
    if n >= 10 {
        let front = encode_utf8(natural_text(n / 10));
        lemma_natural_text_bytes(n / 10);
        assert(natural_text(n) =~= natural_text(n / 10).push(digit_char(n % 10)));
        assert(s =~= front + (seq![bytes.last()] + more)) by {
            assert(bytes =~= bytes.drop_last().push(bytes.last()));
        }
        lemma_text_counts(n / 10, seq![bytes.last()] + more);
    } else {
        assert(natural_text(n) =~= seq![digit_char(n)]);
        assert(count_spec(s, 0) == Ok::<int, ParseError>(0));
    }
}

/// What a response writes as a block, an argument reads as a block of the
/// same bytes, whatever follows it.
pub proof fn lemma_block_reads_back(bytes: Seq<u8>, more: Seq<u8>)
    requires
        block_encoding(bytes) is Some,
    ensures
        block_data_spec(block_encoding(bytes)->0 + more) == Ok::<(int, Lexeme), ParseError>(
            (block_encoding(bytes)->0.len() as int, Lexeme::Arbitrary(bytes)),
        ),
{
    let n = bytes.len() as int;
    let length = encode_utf8(natural_text(n));
    let k = length.len() as int;
    let width = encode_utf8(natural_text(k));
    let text = block_encoding(bytes)->0;
    let s = text + more;
    lemma_natural_text_bytes(n);
    lemma_natural_text_bytes(k);
    assert(natural_text(k) =~= seq![digit_char(k)]);
    assert(width.len() == 1);
    assert(width[0] == 0x30 + k);
    assert(text =~= seq![0x23u8] + width + length + bytes);
    assert(s[0] == 0x23);
    assert(s[1] == width[0]);
    assert(s.skip(2) =~= length + (bytes + more));
    lemma_text_counts(n, bytes + more);
    assert(s.subrange(2 + k, 2 + k + n) =~= bytes);
}

impl Response for Arbitrary<'_> {
    open spec fn encoding(&self) -> Option<Seq<u8>> {
        block_encoding(self.0@)
    }

    fn write_response<W: Write>(&self, f: &mut W) -> (r: Result<(), Error>)
        ensures
            self.encoding() is None ==> final(f).written() == old(f).written(),
    {
        let ghost w0 = f.written();
        let ghost limit = f.limit();
        let length = decimal_string(self.0.len() as i128);
        let digits = length.as_str().as_bytes().len();
        if digits > 9 {
            return Err(Error::TooMuchData);
        }
        let width = decimal_string(digits as i128);
        let ghost hash = Some(seq![0x23u8]);
        let ghost a = Some(encode_utf8(width@));
        let ghost b = Some(encode_utf8(length@));
        let ghost c = Some(self.0@);
        assert(length@ == decimal_text(self.0@.len() as int));
        assert(digits == encode_utf8(length@).len());
        assert(width@ == natural_text(digits as int));
        assert(concat(concat(concat(hash, a), b), c) == block_encoding(self.0@));
        assert(char_byte('#') == 0x23u8);
        let r1 = f.write_char('#');
        let ghost w1 = f.written();
        if r1.is_err() {
            proof {
                lemma_respond_failed(w0, limit, w1, hash, a, r1);
                lemma_respond_failed(w0, limit, w1, concat(hash, a), b, r1);
                lemma_respond_failed(w0, limit, w1, concat(concat(hash, a), b), c, r1);
            }
            return r1;
        }
        let r2 = f.write_str(width.as_str());
        let ghost w2 = f.written();
        proof {
            lemma_respond_then(w0, limit, w1, w2, hash, a, r2);
        }
        if r2.is_err() {
            proof {
                lemma_respond_failed(w0, limit, w2, concat(hash, a), b, r2);
                lemma_respond_failed(w0, limit, w2, concat(concat(hash, a), b), c, r2);
            }
            return r2;
        }
        let r3 = f.write_str(length.as_str());
        let ghost w3 = f.written();
        proof {
            lemma_respond_then(w0, limit, w2, w3, concat(hash, a), b, r3);
        }
        if r3.is_err() {
            proof {
                lemma_respond_failed(w0, limit, w3, concat(concat(hash, a), b), c, r3);
            }
            return r3;
        }
        let r4 = f.write_bytes(self.0);
        proof {
            lemma_respond_then(w0, limit, w3, f.written(), concat(concat(hash, a), b), c, r4);
        }
        r4
    }
}

impl Response for &str {
    open spec fn encoding(&self) -> Option<Seq<u8>> {
        quoted(self@)
    }

    fn write_response<W: Write>(&self, f: &mut W) -> (r: Result<(), Error>) {
        write_quoted(*self, f)
    }
}

impl Response for String {
    open spec fn encoding(&self) -> Option<Seq<u8>> {
        quoted(self@)
    }

    fn write_response<W: Write>(&self, f: &mut W) -> (r: Result<(), Error>) {
        write_quoted(self.as_str(), f)
    }
}

/// The encoding of an error: its number, a comma, and its message between
/// double quotes.
pub open spec fn error_encoding(e: Error) -> Option<Seq<u8>> {
    concat(concat(integer_encoding(e.code()), Some(seq![0x2cu8])), quoted(e.message_text()))
}

impl Response for Error {
    open spec fn encoding(&self) -> Option<Seq<u8>> {
        error_encoding(*self)
    }

    fn write_response<W: Write>(&self, f: &mut W) -> (r: Result<(), Error>) {
        let pair: (i16, &str) = (self.number(), self.message());
        proof {
            let parts = seq![pair.0.encoding(), pair.1.encoding()];
            reveal_with_fuel(joined, 3);
            assert(parts.drop_last() =~= seq![pair.0.encoding()]);
            assert(joined(parts) == error_encoding(*self));
        }
        pair.write_response(f)
    }
}

/// Writes a comma and then a value.
fn write_next<W: Write, T: Response>(value: &T, f: &mut W) -> (r: Result<(), Error>)
    ensures
        responded(
            old(f).written(),
            old(f).limit(),
            final(f).written(),
            final(f).limit(),
            concat(Some(seq![0x2cu8]), value.encoding()),
            r,
        ),
{
    let ghost w0 = f.written();
    let ghost limit = f.limit();
    let ghost comma = Some(seq![0x2cu8]);
    assert(char_byte(',') == 0x2cu8);
    let r1 = f.write_char(',');
    let ghost w1 = f.written();
    if r1.is_err() {
        proof {
            lemma_respond_failed(w0, limit, w1, comma, value.encoding(), r1);
        }
        return r1;
    }
    let r2 = value.write_response(f);
    proof {
        lemma_respond_then(w0, limit, w1, f.written(), comma, value.encoding(), r2);
    }
    r2
}

/// Joining with a comma in front of the second value is joining behind the
/// first.
pub proof fn lemma_concat_assoc(a: Option<Seq<u8>>, b: Option<Seq<u8>>, c: Option<Seq<u8>>)
    ensures
        concat(concat(a, b), c) == concat(a, concat(b, c)),
{
    match (a, b, c) {
        (Some(x), Some(y), Some(z)) => {
            assert((x + y) + z =~= x + (y + z));
        },
        _ => {},
    }
}

impl<A: Response, B: Response> Response for (A, B) {
    open spec fn encoding(&self) -> Option<Seq<u8>> {
        joined(seq![self.0.encoding(), self.1.encoding()])
    }

    fn write_response<W: Write>(&self, f: &mut W) -> (r: Result<(), Error>) {
        let ghost w0 = f.written();
        let ghost limit = f.limit();
        let ghost comma = Some(seq![0x2cu8]);
        let ghost a = self.0.encoding();
        let ghost b = self.1.encoding();
        proof {
            let parts = seq![a, b];
            reveal_with_fuel(joined, 3);
            assert(parts.drop_last() =~= seq![a]);
            assert(joined(parts) == concat(concat(a, comma), b));
            lemma_concat_assoc(a, comma, b);
        }
        let r1 = self.0.write_response(f);
        let ghost w1 = f.written();
        if r1.is_err() {
            proof {
                lemma_respond_failed(w0, limit, w1, a, concat(comma, b), r1);
            }
            return r1;
        }
        let r2 = write_next(&self.1, f);
        proof {
            lemma_respond_then(w0, limit, w1, f.written(), a, concat(comma, b), r2);
        }
        r2
    }
}

impl<A: Response, B: Response, C: Response> Response for (A, B, C) {
    open spec fn encoding(&self) -> Option<Seq<u8>> {
        joined(seq![self.0.encoding(), self.1.encoding(), self.2.encoding()])
    }

    fn write_response<W: Write>(&self, f: &mut W) -> (r: Result<(), Error>) {
        let ghost w0 = f.written();
        let ghost limit = f.limit();
        let ghost comma = Some(seq![0x2cu8]);
        let ghost a = self.0.encoding();
        let ghost b = self.1.encoding();
        let ghost c = self.2.encoding();
        let ghost ab = concat(a, concat(comma, b));
        proof {
            let parts = seq![a, b, c];
            reveal_with_fuel(joined, 4);
            assert(parts.drop_last() =~= seq![a, b]);
            assert(seq![a, b].drop_last() =~= seq![a]);
            assert(joined(parts) == concat(concat(concat(concat(a, comma), b), comma), c));
            lemma_concat_assoc(a, comma, b);
            lemma_concat_assoc(ab, comma, c);
        }
        let r1 = self.0.write_response(f);
        let ghost w1 = f.written();
        if r1.is_err() {
            proof {
                lemma_respond_failed(w0, limit, w1, a, concat(comma, b), r1);
                lemma_respond_failed(w0, limit, w1, ab, concat(comma, c), r1);
            }
            return r1;
        }
        let r2 = write_next(&self.1, f);
        let ghost w2 = f.written();
        proof {
            lemma_respond_then(w0, limit, w1, w2, a, concat(comma, b), r2);
        }
        if r2.is_err() {
            proof {
                lemma_respond_failed(w0, limit, w2, ab, concat(comma, c), r2);
            }
            return r2;
        }
        let r3 = write_next(&self.2, f);
        proof {
            lemma_respond_then(w0, limit, w2, f.written(), ab, concat(comma, c), r3);
        }
        r3
    }
}

impl<A: Response, B: Response, C: Response, D: Response> Response for (A, B, C, D) {
    open spec fn encoding(&self) -> Option<Seq<u8>> {
        joined(seq![self.0.encoding(), self.1.encoding(), self.2.encoding(), self.3.encoding()])
    }

    fn write_response<W: Write>(&self, f: &mut W) -> (r: Result<(), Error>) {
        let ghost w0 = f.written();
        let ghost limit = f.limit();
        let ghost comma = Some(seq![0x2cu8]);
        let ghost a = self.0.encoding();
        let ghost b = self.1.encoding();
        let ghost c = self.2.encoding();
        let ghost d = self.3.encoding();
        let ghost ab = concat(a, concat(comma, b));
        let ghost abc = concat(ab, concat(comma, c));
        proof {
            let parts = seq![a, b, c, d];
            reveal_with_fuel(joined, 5);
            assert(parts.drop_last() =~= seq![a, b, c]);
            assert(seq![a, b, c].drop_last() =~= seq![a, b]);
            assert(seq![a, b].drop_last() =~= seq![a]);
            assert(joined(parts) == concat(
                concat(concat(concat(concat(concat(a, comma), b), comma), c), comma),
                d,
            ));
            lemma_concat_assoc(a, comma, b);
            lemma_concat_assoc(ab, comma, c);
            lemma_concat_assoc(abc, comma, d);
        }
        let r1 = self.0.write_response(f);
        let ghost w1 = f.written();
        if r1.is_err() {
            proof {
                lemma_respond_failed(w0, limit, w1, a, concat(comma, b), r1);
                lemma_respond_failed(w0, limit, w1, ab, concat(comma, c), r1);
                lemma_respond_failed(w0, limit, w1, abc, concat(comma, d), r1);
            }
            return r1;
        }
        let r2 = write_next(&self.1, f);
        let ghost w2 = f.written();
        proof {
            lemma_respond_then(w0, limit, w1, w2, a, concat(comma, b), r2);
        }
        if r2.is_err() {
            proof {
                lemma_respond_failed(w0, limit, w2, ab, concat(comma, c), r2);
                lemma_respond_failed(w0, limit, w2, abc, concat(comma, d), r2);
            }
            return r2;
        }
        let r3 = write_next(&self.2, f);
        let ghost w3 = f.written();
        proof {
            lemma_respond_then(w0, limit, w2, w3, ab, concat(comma, c), r3);
        }
        if r3.is_err() {
            proof {
                lemma_respond_failed(w0, limit, w3, abc, concat(comma, d), r3);
            }
            return r3;
        }
        let r4 = write_next(&self.3, f);
        proof {
            lemma_respond_then(w0, limit, w3, f.written(), abc, concat(comma, d), r4);
        }
        r4
    }
}

/// The encoding of each value.
pub open spec fn encodings<T: Response>(items: Seq<T>) -> Seq<Option<Seq<u8>>> {
    Seq::new(items.len(), |i: int| items[i].encoding())
}

/// Writes values, with a comma between one and the next.
fn write_list<W: Write, T: Response>(items: &[T], f: &mut W) -> (r: Result<(), Error>)
    ensures
        responded(
            old(f).written(),
            old(f).limit(),
            final(f).written(),
            final(f).limit(),
            joined(encodings(items@)),
            r,
        ),
{
    let ghost w0 = f.written();
    let ghost limit = f.limit();
    let ghost all = encodings(items@);
    let ghost comma = Some(seq![0x2cu8]);
    if items.len() == 0 {
        assert(all =~= Seq::<Option<Seq<u8>>>::empty());
        return write_nothing(f);
    }
    let r1 = items[0].write_response(f);
    assert(all.take(1) =~= seq![items@[0].encoding()]);
    if r1.is_err() {
        proof {
            lemma_joined_fails(all, 1, w0, limit, f.written(), r1);
        }
        return r1;
    }
    let mut i: usize = 1;
    while i < items.len()
        invariant
            1 <= i <= items@.len(),
            all == encodings(items@),
            comma == Some(seq![0x2cu8]),
            w0 == old(f).written(),
            limit == old(f).limit(),
            f.limit() == limit,
            responded(w0, limit, f.written(), limit, joined(all.take(i as int)), Ok(())),
        decreases items@.len() - i,
    {
        let ghost w = f.written();
        let ghost so_far = joined(all.take(i as int));
        let ghost next = all.take(i as int + 1);
        proof {
            assert(next.drop_last() =~= all.take(i as int));
            assert(next.last() == items@[i as int].encoding());
            lemma_concat_assoc(so_far, comma, items@[i as int].encoding());
        }
        let r2 = write_next(&items[i], f);
        proof {
            lemma_respond_then(
                w0,
                limit,
                w,
                f.written(),
                so_far,
                concat(comma, items@[i as int].encoding()),
                r2,
            );
        }
        if r2.is_err() {
            proof {
                lemma_joined_fails(all, i as int + 1, w0, limit, f.written(), r2);
            }
            return r2;
        }
        i += 1;
    }
    assert(all.take(items@.len() as int) =~= all);
    Ok(())
}

/// A list whose first `n` values failed to be written failed as a whole.
proof fn lemma_joined_fails(
    all: Seq<Option<Seq<u8>>>,
    n: int,
    before: Seq<u8>,
    limit: nat,
    after: Seq<u8>,
    r: Result<(), Error>,
)
    requires
        1 <= n <= all.len(),
        r is Err,
        responded(before, limit, after, limit, joined(all.take(n)), r),
    ensures
        responded(before, limit, after, limit, joined(all), r),
    decreases all.len() - n,
{
    if n < all.len() {
        let next = all.take(n + 1);
        assert(next.drop_last() =~= all.take(n));
        let comma = Some(seq![0x2cu8]);
        lemma_respond_failed(before, limit, after, joined(all.take(n)), comma, r);
        lemma_respond_failed(
            before,
            limit,
            after,
            concat(joined(all.take(n)), comma),
            next.last(),
            r,
        );
        lemma_joined_fails(all, n + 1, before, limit, after, r);
    } else {
        assert(all.take(n) =~= all);
    }
}

impl<T: Response> Response for [T] {
    open spec fn encoding(&self) -> Option<Seq<u8>> {
        joined(encodings(self@))
    }

    fn write_response<W: Write>(&self, f: &mut W) -> (r: Result<(), Error>) {
        write_list(self, f)
    }
}

impl<T: Response> Response for &[T] {
    open spec fn encoding(&self) -> Option<Seq<u8>> {
        joined(encodings(self@))
    }

    fn write_response<W: Write>(&self, f: &mut W) -> (r: Result<(), Error>) {
        write_list(*self, f)
    }
}

impl<T: Response> Response for Vec<T> {
    open spec fn encoding(&self) -> Option<Seq<u8>> {
        joined(encodings(self@))
    }

    fn write_response<W: Write>(&self, f: &mut W) -> (r: Result<(), Error>) {
        write_list(self.as_slice(), f)
    }
}

impl Response for i8 {
    open spec fn encoding(&self) -> Option<Seq<u8>> {
        integer_encoding(*self as int)
    }

    fn write_response<W: Write>(&self, f: &mut W) -> (r: Result<(), Error>) {
        write_integer(*self as i128, f)
    }
}

impl Response for u8 {
    open spec fn encoding(&self) -> Option<Seq<u8>> {
        integer_encoding(*self as int)
    }

    fn write_response<W: Write>(&self, f: &mut W) -> (r: Result<(), Error>) {
        write_integer(*self as i128, f)
    }
}

impl Response for i16 {
    open spec fn encoding(&self) -> Option<Seq<u8>> {
        integer_encoding(*self as int)
    }

    fn write_response<W: Write>(&self, f: &mut W) -> (r: Result<(), Error>) {
        write_integer(*self as i128, f)
    }
}

impl Response for u16 {
    open spec fn encoding(&self) -> Option<Seq<u8>> {
        integer_encoding(*self as int)
    }

    fn write_response<W: Write>(&self, f: &mut W) -> (r: Result<(), Error>) {
        write_integer(*self as i128, f)
    }
}

impl Response for i32 {
    open spec fn encoding(&self) -> Option<Seq<u8>> {
        integer_encoding(*self as int)
    }

    fn write_response<W: Write>(&self, f: &mut W) -> (r: Result<(), Error>) {
        write_integer(*self as i128, f)
    }
}

impl Response for u32 {
    open spec fn encoding(&self) -> Option<Seq<u8>> {
        integer_encoding(*self as int)
    }

    fn write_response<W: Write>(&self, f: &mut W) -> (r: Result<(), Error>) {
        write_integer(*self as i128, f)
    }
}

impl Response for i64 {
    open spec fn encoding(&self) -> Option<Seq<u8>> {
        integer_encoding(*self as int)
    }

    fn write_response<W: Write>(&self, f: &mut W) -> (r: Result<(), Error>) {
        write_integer(*self as i128, f)
    }
}

impl Response for u64 {
    open spec fn encoding(&self) -> Option<Seq<u8>> {
        integer_encoding(*self as int)
    }

    fn write_response<W: Write>(&self, f: &mut W) -> (r: Result<(), Error>) {
        write_integer(*self as i128, f)
    }
}

impl Response for isize {
    open spec fn encoding(&self) -> Option<Seq<u8>> {
        integer_encoding(*self as int)
    }

    fn write_response<W: Write>(&self, f: &mut W) -> (r: Result<(), Error>) {
        write_integer(*self as i128, f)
    }
}

impl Response for usize {
    open spec fn encoding(&self) -> Option<Seq<u8>> {
        integer_encoding(*self as int)
    }

    fn write_response<W: Write>(&self, f: &mut W) -> (r: Result<(), Error>) {
        write_integer(*self as i128, f)
    }
}

} // verus!
