use microscpi::tokens::{Error, ScanResult, Token, Tokenizer};

#[test]
fn tokens_of_a_message() {
    let mut tokenizer = Tokenizer::new(b"SYST:ERR? 12.5,#\n");
    assert_eq!(tokenizer.next_token(), ScanResult::Token(Token::Mnemonic(b"SYST")));
    assert_eq!(tokenizer.next_token(), ScanResult::Token(Token::Colon));
    assert_eq!(tokenizer.next_token(), ScanResult::Token(Token::Mnemonic(b"ERR")));
    assert_eq!(tokenizer.next_token(), ScanResult::Token(Token::QuestionMark));
    assert_eq!(tokenizer.next_token(), ScanResult::Token(Token::Whitespace));
    assert_eq!(tokenizer.next_token(), ScanResult::Token(Token::Number(b"12.5")));
    assert_eq!(tokenizer.next_token(), ScanResult::Token(Token::Comma));
    assert_eq!(tokenizer.remaining(), b"#\n");
    assert_eq!(tokenizer.next_token(), ScanResult::Invalid(Error::InvalidToken));
    // Nothing is consumed where there is no token.
    assert_eq!(tokenizer.remaining(), b"#\n");
    assert_eq!(tokenizer.next_token(), ScanResult::Invalid(Error::InvalidToken));
}

#[test]
fn a_token_that_may_go_on_is_incomplete() {
    let mut tokenizer = Tokenizer::new(b"SYST");
    assert_eq!(tokenizer.next_token(), ScanResult::Incomplete(b"SYST"));
    assert_eq!(tokenizer.remaining(), b"SYST");
    let mut tokenizer = Tokenizer::new(b"12.");
    assert_eq!(tokenizer.next_token(), ScanResult::Incomplete(b"12."));
    let mut tokenizer = Tokenizer::new(b" \t");
    assert_eq!(tokenizer.next_token(), ScanResult::Incomplete(b" \t"));
    let mut tokenizer = Tokenizer::new(b"*");
    assert_eq!(tokenizer.next_token(), ScanResult::Incomplete(b"*"));
}

#[test]
fn a_token_of_one_byte_is_complete_at_the_end() {
    let mut tokenizer = Tokenizer::new(b";\n");
    assert_eq!(tokenizer.next_token(), ScanResult::Token(Token::SemiColon));
    assert_eq!(tokenizer.next_token(), ScanResult::Token(Token::Terminator));
    assert_eq!(tokenizer.next_token(), ScanResult::Done);
    assert_eq!(tokenizer.next_token(), ScanResult::Done);
    assert_eq!(tokenizer.remaining(), b"");
}

#[test]
fn an_asterisk_begins_a_mnemonic_and_ends_one() {
    let mut tokenizer = Tokenizer::new(b"*IDN?");
    assert_eq!(tokenizer.next_token(), ScanResult::Token(Token::Mnemonic(b"*IDN")));
    let mut tokenizer = Tokenizer::new(b"AB_1*C ");
    assert_eq!(tokenizer.next_token(), ScanResult::Token(Token::Mnemonic(b"AB_1")));
    assert_eq!(tokenizer.next_token(), ScanResult::Token(Token::Mnemonic(b"*C")));
    assert_eq!(tokenizer.next_token(), ScanResult::Incomplete(b" "));
}

#[test]
fn a_number_is_made_of_digits_and_points() {
    let mut tokenizer = Tokenizer::new(b".5,1.2.3;");
    assert_eq!(tokenizer.next_token(), ScanResult::Token(Token::Number(b".5")));
    assert_eq!(tokenizer.next_token(), ScanResult::Token(Token::Comma));
    assert_eq!(tokenizer.next_token(), ScanResult::Token(Token::Number(b"1.2.3")));
    assert_eq!(tokenizer.next_token(), ScanResult::Token(Token::SemiColon));
    let mut tokenizer = Tokenizer::new(b"-5");
    assert_eq!(tokenizer.next_token(), ScanResult::Invalid(Error::InvalidToken));
}

#[test]
fn one_byte_at_a_time_gives_the_same_tokens() {
    let input = b"SYST:ERR? 12.5,ON\n";
    let mut whole = Vec::new();
    let mut tokenizer = Tokenizer::new(input);
    while let ScanResult::Token(token) = tokenizer.next_token() {
        whole.push(format!("{:?}", token));
    }
    assert_eq!(whole.len(), 9);
    let mut pieces = Vec::new();
    let mut start = 0;
    for end in 1..=input.len() {
        let mut tokenizer = Tokenizer::new(&input[start..end]);
        while let ScanResult::Token(token) = tokenizer.next_token() {
            pieces.push(format!("{:?}", token));
        }
        start = end - tokenizer.remaining().len();
    }
    assert_eq!(pieces, whole);
}
