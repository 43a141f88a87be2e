//! The tokenizer: splits bytes into lexical tokens, one at a time, and never
//! reads a token that may go on behind the end of the input.

use vstd::prelude::*;
use vstd::slice::slice_subrange;

verus! {

/// The failure of the tokenizer.
#[derive(Debug, Clone, Copy, PartialEq, Eq)]
pub enum Error {
    /// The input begins with a byte that begins no token.
    InvalidToken,
}

/// A lexical token. A mnemonic and a number borrow their bytes from the
/// input.
#[derive(Debug, Clone, Copy, PartialEq, Eq)]
pub enum Token<'a> {
    Whitespace,
    Mnemonic(&'a [u8]),
    Number(&'a [u8]),
    Colon,
    Comma,
    SemiColon,
    QuestionMark,
    Terminator,
}

/// What the tokenizer makes of its input.
#[derive(Debug, Clone, Copy, PartialEq, Eq)]
pub enum ScanResult<'a> {
    /// A token, which was consumed.
    Token(Token<'a>),
    /// The input ends within a token that more input may continue. Nothing
    /// was consumed: the bytes of the unfinished token are handed back.
    Incomplete(&'a [u8]),
    /// The input begins with no token. Nothing was consumed.
    Invalid(Error),
    /// The input is empty.
    Done,
}

/// The kinds of tokens.
#[derive(Debug, Clone, Copy, PartialEq, Eq)]
pub enum Kind {
    Whitespace,
    Mnemonic,
    Number,
    Colon,
    Comma,
    SemiColon,
    QuestionMark,
    Terminator,
}

/// The kind of token that begins with the byte `b`, if one does: white
/// space with the bytes 0 to 9 and 11 to 32, a mnemonic with a letter or an
/// asterisk, a number with a digit or a point, and each of `:`, `,`, `;`,
/// `?` and the newline with itself.
pub open spec fn kind_of(b: u8) -> Option<Kind> {
    if b <= 9 || (11 <= b && b <= 32) {
        Some(Kind::Whitespace)
    } else if b == 0x3a {
        Some(Kind::Colon)
    } else if b == 0x3f {
        Some(Kind::QuestionMark)
    } else if b == 0x3b {
        Some(Kind::SemiColon)
    } else if b == 0x2c {
        Some(Kind::Comma)
    } else if (0x41 <= b && b <= 0x5a) || (0x61 <= b && b <= 0x7a) || b == 0x2a {
        Some(Kind::Mnemonic)
    } else if (0x30 <= b && b <= 0x39) || b == 0x2e {
        Some(Kind::Number)
    } else if b == 0x0a {
        Some(Kind::Terminator)
    } else {
        None
    }
}

/// Tells whether a token of the given kind goes on with the byte `b`: white
/// space with white space, a mnemonic with a letter, a digit or an
/// underscore, a number with a digit or a point. The other tokens are one
/// byte long.
pub open spec fn continues(kind: Kind, b: u8) -> bool {
    match kind {
        Kind::Whitespace => b <= 9 || (11 <= b && b <= 32),
        Kind::Mnemonic => (0x41 <= b && b <= 0x5a) || (0x61 <= b && b <= 0x7a) || (0x30 <= b && b
            <= 0x39) || b == 0x5f,
        Kind::Number => (0x30 <= b && b <= 0x39) || b == 0x2e,
        _ => false,
    }
}

/// Tells whether a token of the given kind may be longer than one byte.
pub open spec fn is_run(kind: Kind) -> bool {
    kind is Whitespace || kind is Mnemonic || kind is Number
}

/// The number of bytes, from the second byte on, with which a token of the
/// given kind goes on.
pub open spec fn tail_len(s: Seq<u8>, kind: Kind) -> int
    decreases s.len(),
{
    if s.len() > 0 && continues(kind, s.first()) {
        1 + tail_len(s.drop_first(), kind)
    } else {
        0
    }
}

/// What the tokenizer makes of the input `s`.
pub enum Scanned {
    /// A token of the given kind, made of the first `len` bytes.
    Token { kind: Kind, len: int },
    /// The input ends within a token.
    Incomplete,
    /// The input begins with no token.
    Invalid,
    /// The input is empty.
    Done,
}

/// The next token of the input. A token that may be longer than one byte
/// is complete only where a byte follows that does not continue it.
pub open spec fn scan(s: Seq<u8>) -> Scanned {
    if s.len() == 0 {
        Scanned::Done
    } else {
        match kind_of(s[0]) {
            None => Scanned::Invalid,
            Some(kind) => if is_run(kind) {
                let len = 1 + tail_len(s.skip(1), kind);
                if len >= s.len() {
                    Scanned::Incomplete
                } else {
                    Scanned::Token { kind, len }
                }
            } else {
                Scanned::Token { kind, len: 1 }
            },
        }
    }
}

impl<'a> Token<'a> {
    /// The kind of the token.
    pub open spec fn kind(self) -> Kind {
        match self {
            Token::Whitespace => Kind::Whitespace,
            Token::Mnemonic(_) => Kind::Mnemonic,
            Token::Number(_) => Kind::Number,
            Token::Colon => Kind::Colon,
            Token::Comma => Kind::Comma,
            Token::SemiColon => Kind::SemiColon,
            Token::QuestionMark => Kind::QuestionMark,
            Token::Terminator => Kind::Terminator,
        }
    }

    /// The token is of the given kind and, where it is a mnemonic or a
    /// number, holds the given bytes.
    pub open spec fn holds(self, kind: Kind, bytes: Seq<u8>) -> bool {
        &&& self.kind() == kind
        &&& match self {
            Token::Mnemonic(text) => text@ == bytes,
            Token::Number(text) => text@ == bytes,
            _ => true,
        }
    }
}

/// The result of the tokenizer and the input that it leaves agree with
/// what is to be made of the input `before`.
pub open spec fn scanned(before: Seq<u8>, r: ScanResult<'_>, after: Seq<u8>) -> bool {
    match r {
        ScanResult::Token(token) => match scan(before) {
            Scanned::Token { kind, len } => 0 < len <= before.len() && token.holds(
                kind,
                before.take(len),
            ) && after == before.skip(len),
            _ => false,
        },
        ScanResult::Incomplete(rest) => scan(before) is Incomplete && rest@ == before && after
            == before,
        ScanResult::Invalid(e) => scan(before) is Invalid && after == before,
        ScanResult::Done => scan(before) is Done && after == before,
    }
}

/// The tokenizer. It holds the input that it has not consumed yet.
pub struct Tokenizer<'a> {
    input: &'a [u8],
}

impl<'a> Tokenizer<'a> {
    /// The input that is left.
    pub closed spec fn view(&self) -> Seq<u8> {
        self.input@
    }

    /// A tokenizer for the given input.
    pub fn new(input: &'a [u8]) -> (r: Tokenizer<'a>)
        ensures
            r@ == input@,
    {
        Tokenizer { input }
    }

    /// The input that is left.
    pub fn remaining(&self) -> (r: &'a [u8])
        ensures
            r@ == self@,
    {
        self.input
    }

    /// Consumes one byte.
    fn advance(&mut self)
        requires
            old(self)@.len() > 0,
        ensures
            final(self)@ == old(self)@.skip(1),
    {
        let input = self.input;
        self.input = slice_subrange(input, 1, input.len());
        assert(self.input@ =~= input@.skip(1));
    }

    /// Takes the bytes of a token of the given kind, if a byte follows that
    /// ends it.
    fn take_until(&mut self, kind: Kind) -> (r: Option<&'a [u8]>)
        requires
            old(self)@.len() > 0,
            is_run(kind),
        ensures
            match r {
                Some(taken) => {
                    let len = 1 + tail_len(old(self)@.skip(1), kind);
                    &&& 1 <= len < old(self)@.len()
                    &&& taken@ == old(self)@.take(len)
                    &&& final(self)@ == old(self)@.skip(len)
                },
                None => 1 + tail_len(old(self)@.skip(1), kind) >= old(self)@.len() && final(self)@
                    == old(self)@,
            },
    {
        let input = self.input;
        let mut pos: usize = 1;
        assert(input@.skip(1).take(0) =~= Seq::<u8>::empty());
        while pos < input.len()
            invariant
                1 <= pos <= input@.len(),
                forall|i: int| 1 <= i < pos ==> continues(kind, #[trigger] input@[i]),
            ensures
                1 <= pos <= input@.len(),
                forall|i: int| 1 <= i < pos ==> continues(kind, #[trigger] input@[i]),
                pos < input@.len() ==> !continues(kind, input@[pos as int]),
            decreases input@.len() - pos,
        {
            if !goes_on(kind, input[pos]) {
                break ;
            }
            pos += 1;
        }
        proof {
            lemma_tail_is(input@.skip(1), kind, pos as int - 1);
        }
        if pos < input.len() {
            self.input = slice_subrange(input, pos, input.len());
            Some(slice_subrange(input, 0, pos))
        } else {
            None
        }
    }

    /// Read a whitespace token (IEEE 488.2 7.4.1.2).
    fn whitespace(&mut self) -> (r: ScanResult<'a>)
        requires
            old(self)@.len() > 0,
            kind_of(old(self)@[0]) == Some(Kind::Whitespace),
        ensures
            scanned(old(self)@, r, final(self)@),
    {
        match self.take_until(Kind::Whitespace) {
            Some(_) => ScanResult::Token(Token::Whitespace),
            None => ScanResult::Incomplete(self.input),
        }
    }

    /// Reads a mnemonic.
    fn mnemonic(&mut self) -> (r: ScanResult<'a>)
        requires
            old(self)@.len() > 0,
            kind_of(old(self)@[0]) == Some(Kind::Mnemonic),
        ensures
            scanned(old(self)@, r, final(self)@),
    {
        match self.take_until(Kind::Mnemonic) {
            Some(text) => ScanResult::Token(Token::Mnemonic(text)),
            None => ScanResult::Incomplete(self.input),
        }
    }

    /// Reads a number.
    fn number(&mut self) -> (r: ScanResult<'a>)
        requires
            old(self)@.len() > 0,
            kind_of(old(self)@[0]) == Some(Kind::Number),
        ensures
            scanned(old(self)@, r, final(self)@),
    {
        match self.take_until(Kind::Number) {
            Some(text) => ScanResult::Token(Token::Number(text)),
            None => ScanResult::Incomplete(self.input),
        }
    }

    /// Reads the next token.
    ///
    /// A token that may go on behind the end of the input is not read: the
    /// result is then `Incomplete` with the input that is left, which stays
    /// as it is. It also stays as it is where it begins with no token.
    pub fn next_token(&mut self) -> (r: ScanResult<'a>)
        ensures
            scanned(old(self)@, r, final(self)@),
    {
        let input = self.input;
        if input.len() == 0 {
            return ScanResult::Done;
        }
        let b = input[0];
        if b <= 9 || (11 <= b && b <= 32) {
            self.whitespace()
        } else if b == 0x3a {
            self.advance();
            ScanResult::Token(Token::Colon)
        } else if b == 0x3f {
            self.advance();
            ScanResult::Token(Token::QuestionMark)
        } else if b == 0x3b {
            self.advance();
            ScanResult::Token(Token::SemiColon)
        } else if b == 0x2c {
            self.advance();
            ScanResult::Token(Token::Comma)
        } else if (0x41 <= b && b <= 0x5a) || (0x61 <= b && b <= 0x7a) || b == 0x2a {
            self.mnemonic()
        } else if (0x30 <= b && b <= 0x39) || b == 0x2e {
            self.number()
        } else if b == 0x0a {
            self.advance();
            ScanResult::Token(Token::Terminator)
        } else {
            ScanResult::Invalid(Error::InvalidToken)
        }
    }
}

/// Executable form of [`continues`].
fn goes_on(kind: Kind, b: u8) -> (r: bool)
    ensures
        r == continues(kind, b),
{
    match kind {
        Kind::Whitespace => b <= 9 || (11 <= b && b <= 32),
        Kind::Mnemonic => (0x41 <= b && b <= 0x5a) || (0x61 <= b && b <= 0x7a) || (0x30 <= b && b
            <= 0x39) || b == 0x5f,
        Kind::Number => (0x30 <= b && b <= 0x39) || b == 0x2e,
        _ => false,
    }
}

/// Bytes that continue a token, followed by the end of the input or by a
/// byte that does not, are the tail of the token.
pub proof fn lemma_tail_is(s: Seq<u8>, kind: Kind, n: int)
    requires
        0 <= n <= s.len(),
        forall|i: int| 0 <= i < n ==> continues(kind, #[trigger] s[i]),
        n < s.len() ==> !continues(kind, s[n]),
    ensures
        tail_len(s, kind) == n,
    decreases n,
{
    if n > 0 {
        let rest = s.drop_first();
        assert forall|i: int| 0 <= i < n - 1 implies continues(kind, #[trigger] rest[i]) by {
            assert(rest[i] == s[i + 1]);
        }
        lemma_tail_is(rest, kind, n - 1);
    }
}

/// A token that was read from an input is read alike from every input that
/// goes on behind it: what the tokenizer accepts, it never takes back when
/// more bytes arrive.
pub proof fn lemma_token_is_stable(s: Seq<u8>, more: Seq<u8>)
    requires
        scan(s) is Token,
    ensures
        scan(s + more) == scan(s),
{
    let kind = kind_of(s[0])->0;
    assert((s + more)[0] == s[0]);
    if is_run(kind) {
        let len = 1 + tail_len(s.skip(1), kind);
        lemma_tail_holds(s.skip(1), kind);
        assert forall|i: int| 0 <= i < len - 1 implies continues(
            kind,
            #[trigger] (s + more).skip(1)[i],
        ) by {
            assert((s + more).skip(1)[i] == s.skip(1)[i]);
        }
        assert((s + more).skip(1)[len - 1] == s.skip(1)[len - 1]);
        lemma_tail_is((s + more).skip(1), kind, len - 1);
    }
}

/// The bytes of the tail of a token continue it, and the byte after them
/// does not.
pub proof fn lemma_tail_holds(s: Seq<u8>, kind: Kind)
    ensures
        0 <= tail_len(s, kind) <= s.len(),
        forall|i: int| 0 <= i < tail_len(s, kind) ==> continues(kind, #[trigger] s[i]),
        tail_len(s, kind) < s.len() ==> !continues(kind, s[tail_len(s, kind)]),
    decreases s.len(),
{
    if s.len() > 0 && continues(kind, s.first()) {
        let rest = s.drop_first();
        lemma_tail_holds(rest, kind);
        assert forall|i: int| 0 <= i < tail_len(s, kind) implies continues(
            kind,
            #[trigger] s[i],
        ) by {
            if i > 0 {
                assert(s[i] == rest[i - 1]);
            }
        }
        if tail_len(s, kind) < s.len() {
            assert(s[tail_len(s, kind)] == rest[tail_len(rest, kind)]);
        }
    }
}

} // verus!
