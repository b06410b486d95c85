use slang::tokenizer::{Token, Tokenizer};

fn tokenizer_case(input: &str, expected: Vec<Token>) {
    let tokenizer = Tokenizer::default();

    let actual_tokens = tokenizer.tokenize(input);

    assert_eq!(actual_tokens, expected);
}

#[test]
fn keeps_singletons_separate() {
    let input = "{[,]}";

    let expected_tokens = vec![
        Token::new("{", ""),
        Token::new("[", ""),
        Token::new(",", ""),
        Token::new("]", ""),
        Token::new("}", ""),
    ];

    tokenizer_case(input, expected_tokens);
}

#[test]
fn preserves_suffixes() {
    let input = "a b\tc\n";

    let expected_tokens = vec![
        Token::new("a", " "),
        Token::new("b", "\t"),
        Token::new("c", "\n"),
    ];

    tokenizer_case(input, expected_tokens);
}

#[test]
fn function_like() {
    let input = "fn a(b: C, d: E) -> F { b + d }";

    let expected_tokens = vec![
        Token::new("fn", " "),
        Token::new("a", ""),
        Token::new("(", ""),
        Token::new("b", ""),
        Token::new(":", " "),
        Token::new("C", ""),
        Token::new(",", " "),
        Token::new("d", ""),
        Token::new(":", " "),
        Token::new("E", ""),
        Token::new(")", " "),
        Token::new("->", " "),
        Token::new("F", " "),
        Token::new("{", " "),
        Token::new("b", " "),
        Token::new("+", " "),
        Token::new("d", " "),
        Token::new("}", ""),
    ];

    tokenizer_case(input, expected_tokens);
}

#[test]
fn round_trips_text_without_trailing_separator() {
    let tokenizer = Tokenizer::default();
    let input = "abc def";
    let tokens = tokenizer.tokenize(input);
    let mut rebuilt = String::new();
    for t in &tokens {
        rebuilt.push_str(&t.value);
        rebuilt.push_str(&t.suffix);
    }
    assert_eq!(rebuilt, input);
    assert_eq!(tokens.len(), 2);
    assert_eq!(tokens[1], Token::new("def", ""));
}

#[test]
fn round_trips_leading_whitespace() {
    let tokenizer = Tokenizer::default();
    let input = "  x\n\n  y";
    let tokens = tokenizer.tokenize(input);
    let mut rebuilt = String::new();
    for t in &tokens {
        rebuilt.push_str(&t.value);
        rebuilt.push_str(&t.suffix);
    }
    assert_eq!(rebuilt, input);
    assert_eq!(tokens[0], Token::new("", "  "));
}

#[test]
fn empty_input_gives_no_tokens() {
    let tokenizer = Tokenizer::default();
    assert_eq!(tokenizer.tokenize(""), Vec::<Token>::new());
}
