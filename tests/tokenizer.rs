use calc_expr::tokenizer::{Token, TokenType, TokenizeError, Tokenizer};

fn tokenizer_of(text: &str) -> Tokenizer {
    Tokenizer { input: text.chars().collect(), current_index: 0, tokens: Vec::new() }
}

#[test]
fn test_tokenize_function_valid() {
    let mut tokenizer = tokenizer_of("log");
    assert!(tokenizer.tokenize_function().is_ok());
    assert_eq!(tokenizer.tokens.len(), 1);
    assert_eq!(tokenizer.tokens[0].token_type, TokenType::LOG);
    assert_eq!(tokenizer.tokens[0].value, None);

    tokenizer = tokenizer_of("ln");
    assert!(tokenizer.tokenize_function().is_ok());
    assert_eq!(tokenizer.tokens.len(), 1);
    assert_eq!(tokenizer.tokens[0].token_type, TokenType::LN);
    assert_eq!(tokenizer.tokens[0].value, None);

    tokenizer = tokenizer_of("sin");
    assert!(tokenizer.tokenize_function().is_ok());
    assert_eq!(tokenizer.tokens.len(), 1);
    assert_eq!(tokenizer.tokens[0].token_type, TokenType::SIN);
    assert_eq!(tokenizer.tokens[0].value, None);

    tokenizer = tokenizer_of("cos");
    assert!(tokenizer.tokenize_function().is_ok());
    assert_eq!(tokenizer.tokens.len(), 1);
    assert_eq!(tokenizer.tokens[0].token_type, TokenType::COS);
    assert_eq!(tokenizer.tokens[0].value, None);
}

#[test]
fn test_tokenize_function_invalid() {
    let mut tokenizer = tokenizer_of("abc");
    assert_eq!(
        tokenizer.tokenize_function(),
        Err(TokenizeError::InvalidFunctionName("abc".to_string()))
    );
    assert!(tokenizer.tokens.is_empty());
}

#[test]
fn test_tokenize_number_valid() {
    let mut tokenizer = tokenizer_of("123");
    assert!(tokenizer.tokenize_number().is_ok());
    assert_eq!(
        tokenizer.tokens,
        vec![Token { token_type: TokenType::INT, value: Some("123".to_string()) }]
    );

    tokenizer = tokenizer_of("123.45");
    assert!(tokenizer.tokenize_number().is_ok());
    assert_eq!(
        tokenizer.tokens,
        vec![Token { token_type: TokenType::FLOAT, value: Some("123.45".to_string()) }]
    );
}

#[test]
fn test_tokenize_number_invalid() {
    let mut tokenizer = tokenizer_of("123.45.67");
    assert_eq!(
        tokenizer.tokenize_number(),
        Err(TokenizeError::MalformedNumber("123.45.67".to_string()))
    );
}

#[test]
fn test_tokenize_mixed_input() {
    let mut tokenizer = tokenizer_of("sin45+log");
    assert!(tokenizer.tokenize().is_ok());
    assert_eq!(
        tokenizer.tokens,
        vec![
            Token { token_type: TokenType::SIN, value: None },
            Token { token_type: TokenType::INT, value: Some("45".to_string()) },
            Token { token_type: TokenType::ADD, value: None },
            Token { token_type: TokenType::LOG, value: None },
        ]
    );
}

#[test]
fn test_peek_and_consume() {
    let mut tokenizer = tokenizer_of("test");
    assert_eq!(tokenizer.peek(), Some(&'t'));
    assert_eq!(tokenizer.consume(), Some(&'t'));
    assert_eq!(tokenizer.peek(), Some(&'e'));
}

#[test]
fn new_collects_the_characters() {
    let tokenizer = Tokenizer::new("a+é");
    assert_eq!(tokenizer.input, vec!['a', '+', 'é']);
    assert_eq!(tokenizer.current_index, 0);
    assert!(tokenizer.tokens.is_empty());
}

#[test]
fn consume_at_end_gives_none() {
    let mut tokenizer = tokenizer_of("");
    assert_eq!(tokenizer.peek(), None);
    assert_eq!(tokenizer.consume(), None);
    assert_eq!(tokenizer.current_index, 1);
}

#[test]
fn underscores_are_dropped_from_numbers() {
    let mut tokenizer = Tokenizer::new("1_000");
    let tokens = tokenizer.tokenize().unwrap();
    assert_eq!(tokens, vec![Token { token_type: TokenType::INT, value: Some("1000".to_string()) }]);
}

#[test]
fn unknown_word_is_rejected() {
    let mut tokenizer = Tokenizer::new("abc");
    assert_eq!(
        tokenizer.tokenize(),
        Err(TokenizeError::InvalidFunctionName("abc".to_string()))
    );
}

#[test]
fn second_decimal_point_is_rejected() {
    let mut tokenizer = Tokenizer::new("1.2.3");
    assert_eq!(
        tokenizer.tokenize(),
        Err(TokenizeError::MalformedNumber("1.2.3".to_string()))
    );
}

#[test]
fn unknown_character_is_rejected() {
    let mut tokenizer = Tokenizer::new("1 # 2");
    assert_eq!(tokenizer.tokenize(), Err(TokenizeError::UnrecognizedCharacter('#')));
}

#[test]
fn non_ascii_letters_form_words() {
    let mut tokenizer = Tokenizer::new("siné(1)");
    assert_eq!(
        tokenizer.tokenize(),
        Err(TokenizeError::InvalidFunctionName("siné".to_string()))
    );
}

#[test]
fn every_symbol_and_white_space() {
    let mut tokenizer = Tokenizer::new("( 1.5\t+ 2 )-\n3*4/5^6\u{3000}ln cos");
    let kinds: Vec<TokenType> = tokenizer.tokenize().unwrap().iter().map(|t| t.token_type).collect();
    assert_eq!(
        kinds,
        vec![
            TokenType::OpenParen,
            TokenType::FLOAT,
            TokenType::ADD,
            TokenType::INT,
            TokenType::CloseParen,
            TokenType::SUB,
            TokenType::INT,
            TokenType::MUL,
            TokenType::INT,
            TokenType::DIV,
            TokenType::INT,
            TokenType::EXP,
            TokenType::INT,
            TokenType::LN,
            TokenType::COS,
        ]
    );
}

#[test]
fn number_ends_at_a_letter() {
    let mut tokenizer = Tokenizer::new("2.5_0cos");
    let tokens = tokenizer.tokenize().unwrap();
    assert_eq!(
        tokens,
        vec![
            Token { token_type: TokenType::FLOAT, value: Some("2.50".to_string()) },
            Token { token_type: TokenType::COS, value: None },
        ]
    );
}

#[test]
fn empty_input_has_no_tokens() {
    let mut tokenizer = Tokenizer::new(" \t ");
    assert_eq!(tokenizer.tokenize(), Ok(vec![]));
}

#[test]
fn malformed_number_carries_the_whole_run() {
    let mut tokenizer = Tokenizer::new("1.2_3.4+5");
    assert_eq!(
        tokenizer.tokenize(),
        Err(TokenizeError::MalformedNumber("1.2_3.4".to_string()))
    );
}

#[test]
fn consume_past_the_end_still_moves() {
    let mut tokenizer = Tokenizer::new("x");
    assert_eq!(tokenizer.consume(), Some(&'x'));
    assert_eq!(tokenizer.consume(), None);
    assert_eq!(tokenizer.current_index, 2);
}
