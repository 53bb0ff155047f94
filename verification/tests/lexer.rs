use minicc::token::{
    is_digit, is_space, is_symbol, is_word_part, is_word_start, LexError, Token, TokenType,
    Tokenizer,
};

fn lex(source: &str) -> Result<Vec<Token>, LexError> {
    Tokenizer::new(source).tokenize()
}

fn kinds(source: &str) -> Vec<TokenType> {
    lex(source).unwrap().into_iter().map(|t| t.ty).collect()
}

fn texts(source: &str) -> Vec<String> {
    lex(source).unwrap().into_iter().map(|t| t.input).collect()
}

fn ident(name: &str) -> TokenType {
    TokenType::Identifier(name.to_string())
}

#[test]
fn lexes_sum() {
    assert_eq!(
        kinds("1+2"),
        vec![
            TokenType::Number(1),
            TokenType::Symbol('+'),
            TokenType::Number(2),
            TokenType::EndOfInput,
        ]
    );
}

#[test]
fn lexes_return_keyword() {
    assert_eq!(
        kinds("return x;"),
        vec![TokenType::ReturnKeyword, ident("x"), TokenType::Symbol(';'), TokenType::EndOfInput]
    );
}

#[test]
fn lexes_word_that_starts_with_return() {
    assert_eq!(
        kinds("returnx;"),
        vec![ident("returnx"), TokenType::Symbol(';'), TokenType::EndOfInput]
    );
}

#[test]
fn rejects_hash() {
    assert_eq!(lex("#"), Err(LexError { character: '#', position: 0 }));
}

#[test]
fn empty_text_is_end_of_input() {
    assert_eq!(kinds(""), vec![TokenType::EndOfInput]);
    assert_eq!(texts(""), vec!["EOF".to_string()]);
}

#[test]
fn white_space_is_dropped() {
    assert_eq!(kinds(" \t\n\x0b\x0c\r"), vec![TokenType::EndOfInput]);
    assert_eq!(
        kinds("  1 \n +\t2  "),
        vec![
            TokenType::Number(1),
            TokenType::Symbol('+'),
            TokenType::Number(2),
            TokenType::EndOfInput,
        ]
    );
}

#[test]
fn every_symbol_is_a_token() {
    let expected: Vec<TokenType> = "+-*/();="
        .chars()
        .map(TokenType::Symbol)
        .chain(std::iter::once(TokenType::EndOfInput))
        .collect();
    assert_eq!(kinds("+-*/();="), expected);
}

#[test]
fn keyword_at_the_end_of_the_text() {
    assert_eq!(kinds("return"), vec![TokenType::ReturnKeyword, TokenType::EndOfInput]);
    assert_eq!(kinds("return;"), vec![
        TokenType::ReturnKeyword,
        TokenType::Symbol(';'),
        TokenType::EndOfInput
    ]);
}

#[test]
fn keyword_needs_the_whole_word() {
    assert_eq!(kinds("return_"), vec![ident("return_"), TokenType::EndOfInput]);
    assert_eq!(kinds("return1"), vec![ident("return1"), TokenType::EndOfInput]);
    assert_eq!(kinds("retur"), vec![ident("retur"), TokenType::EndOfInput]);
    assert_eq!(kinds("Return"), vec![ident("Return"), TokenType::EndOfInput]);
    assert_eq!(kinds("xreturn"), vec![ident("xreturn"), TokenType::EndOfInput]);
}

#[test]
fn words_are_as_long_as_they_can_be() {
    assert_eq!(kinds("_a1b2 c"), vec![ident("_a1b2"), ident("c"), TokenType::EndOfInput]);
    assert_eq!(kinds("abc+d"), vec![
        ident("abc"),
        TokenType::Symbol('+'),
        ident("d"),
        TokenType::EndOfInput
    ]);
}

#[test]
fn a_number_ends_where_a_word_could_start() {
    assert_eq!(kinds("12ab"), vec![TokenType::Number(12), ident("ab"), TokenType::EndOfInput]);
}

#[test]
fn numbers_are_decimal() {
    assert_eq!(kinds("0"), vec![TokenType::Number(0), TokenType::EndOfInput]);
    assert_eq!(kinds("007"), vec![TokenType::Number(7), TokenType::EndOfInput]);
    assert_eq!(kinds("1234567890"), vec![TokenType::Number(1234567890), TokenType::EndOfInput]);
    assert_eq!(kinds("2147483647"), vec![TokenType::Number(i32::MAX), TokenType::EndOfInput]);
}

#[test]
fn a_number_that_does_not_fit_stops_the_scan() {
    assert_eq!(lex("2147483648"), Err(LexError { character: '2', position: 0 }));
    assert_eq!(lex("1 + 99999999999;"), Err(LexError { character: '9', position: 4 }));
    assert_eq!(lex("00000000002147483648"), Err(LexError { character: '0', position: 0 }));
}

#[test]
fn tokens_carry_their_source_text() {
    assert_eq!(texts("foo = 007 ; return"), vec!["foo", "=", "007", ";", "return", "EOF"]);
}

#[test]
fn error_names_the_character_and_its_place() {
    assert_eq!(lex("1 + #"), Err(LexError { character: '#', position: 4 }));
    assert_eq!(lex("a$b"), Err(LexError { character: '$', position: 1 }));
    assert_eq!(lex("x = 1;\n y ? 2;"), Err(LexError { character: '?', position: 10 }));
}

#[test]
fn places_count_characters() {
    assert_eq!(lex("\u{e9}"), Err(LexError { character: '\u{e9}', position: 0 }));
    assert_eq!(lex("a \u{3b1} b"), Err(LexError { character: '\u{3b1}', position: 2 }));
    assert_eq!(lex("1+\u{a0}2"), Err(LexError { character: '\u{a0}', position: 2 }));
}

#[test]
fn scanning_again_finds_only_the_end() {
    let mut tokenizer = Tokenizer::new("1+2");
    assert_eq!(tokenizer.tokenize().unwrap().len(), 4);
    let again = tokenizer.tokenize().unwrap();
    assert_eq!(again.len(), 1);
    assert_eq!(again[0].ty, TokenType::EndOfInput);
}

#[test]
fn scanning_again_after_an_error_stops_at_the_same_place() {
    let mut tokenizer = Tokenizer::new("1 # 2");
    assert_eq!(tokenizer.tokenize(), Err(LexError { character: '#', position: 2 }));
    assert_eq!(tokenizer.tokenize(), Err(LexError { character: '#', position: 2 }));
}

#[test]
fn constructors_build_what_they_are_given() {
    assert_eq!(
        Token::with_val(5, "5".to_string()),
        Token { ty: TokenType::Number(5), input: "5".to_string() }
    );
    assert_eq!(
        Token::with_symbol('+', "+".to_string()),
        Token { ty: TokenType::Symbol('+'), input: "+".to_string() }
    );
    assert_eq!(
        Token::with_return("return".to_string()),
        Token { ty: TokenType::ReturnKeyword, input: "return".to_string() }
    );
    assert_eq!(
        Token::with_ident("x".to_string(), "x".to_string()),
        Token { ty: ident("x"), input: "x".to_string() }
    );
    assert_eq!(
        Token::eof("EOF".to_string()),
        Token { ty: TokenType::EndOfInput, input: "EOF".to_string() }
    );
}

#[test]
fn character_classes_agree_with_ascii() {
    for code in 0u32..=0x7f {
        let c = char::from_u32(code).unwrap();
        assert_eq!(is_space(c), c.is_whitespace(), "{:?}", c);
        assert_eq!(is_digit(c), c.is_ascii_digit(), "{:?}", c);
        assert_eq!(is_word_start(c), c.is_ascii_alphabetic() || c == '_', "{:?}", c);
        assert_eq!(is_word_part(c), c.is_ascii_alphanumeric() || c == '_', "{:?}", c);
        assert_eq!(is_symbol(c), "+-*/();=".contains(c), "{:?}", c);
    }
}

#[test]
fn no_character_beyond_ascii_is_in_a_class() {
    for c in ['\u{80}', '\u{85}', '\u{a0}', '\u{e9}', '\u{3b1}', '\u{661}', '\u{2003}', '\u{10ffff}'] {
        assert!(!is_space(c) && !is_digit(c) && !is_word_start(c) && !is_word_part(c));
        assert!(!is_symbol(c));
    }
}
