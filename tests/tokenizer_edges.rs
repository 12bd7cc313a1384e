use lexical_analyzer::lexer::{process_text, split_words, tokenize, FloatLiteral, Token};
use lexical_analyzer::rules::{classify_word, LexError};

#[test]
fn scenario_line_keeps_text_and_reports_bad_word() {
    let (tokens, diagnostics) = tokenize("x 78 8.4 -55 size55 54RR if <= while x += *= /= -= !=");
    assert_eq!(tokens.len(), 14);
    assert_eq!(tokens[2].token, Token::Float(FloatLiteral { negative: false, whole: 8, fraction: vec![4] }));
    assert_eq!(tokens[2].value, "8.4");
    assert_eq!(tokens[3].value, "-55");
    assert_eq!(diagnostics.len(), 1);
    assert_eq!(diagnostics[0].kind, LexError::NoTokenFound);
    assert_eq!(diagnostics[0].word, "54RR");
}

#[test]
fn scenario_invalid_token_diagnostic() {
    let (tokens, diagnostics) = tokenize("1invalid_token");
    assert!(tokens.is_empty());
    assert_eq!(diagnostics.len(), 1);
    assert_eq!(diagnostics[0].kind, LexError::NoTokenFound);
}

#[test]
fn scenario_empty_has_no_diagnostics() {
    let (tokens, diagnostics) = tokenize("");
    assert!(tokens.is_empty());
    assert!(diagnostics.is_empty());
}

#[test]
fn scenario_partial_float_is_reported() {
    let (tokens, diagnostics) = tokenize("3.14.15");
    assert!(tokens.is_empty());
    assert_eq!(diagnostics.len(), 1);
    assert_eq!(diagnostics[0].kind, LexError::NoTokenFound);
    assert_eq!(diagnostics[0].word, "3.14.15");
}

#[test]
fn int_text_round_trips() {
    for n in [0i32, 7, 10, 99, -1, -100, 2147483647, -2147483648, 1000000] {
        let text = n.to_string();
        let tokens = process_text(&text);
        assert_eq!(tokens.len(), 1);
        assert_eq!(tokens[0].token, Token::Int(n));
        assert_eq!(tokens[0].value, text);
    }
}

#[test]
fn int_leading_zeros_keep_text() {
    let tokens = process_text("007 -0");
    assert_eq!(tokens[0].token, Token::Int(7));
    assert_eq!(tokens[0].value, "007");
    assert_eq!(tokens[1].token, Token::Int(0));
    assert_eq!(tokens[1].value, "-0");
}

#[test]
fn int_out_of_range_is_invalid_number() {
    assert_eq!(classify_word("2147483648"), Err(LexError::InvalidNumber));
    assert_eq!(classify_word("-2147483649"), Err(LexError::InvalidNumber));
    assert_eq!(classify_word("99999999999999999999999"), Err(LexError::InvalidNumber));
    let (tokens, diagnostics) = tokenize("1 2147483648 2");
    assert_eq!(tokens.len(), 2);
    assert_eq!(diagnostics.len(), 1);
    assert_eq!(diagnostics[0].kind, LexError::InvalidNumber);
    assert_eq!(diagnostics[0].word, "2147483648");
}

#[test]
fn float_exact_decimal() {
    assert_eq!(
        classify_word("-12.034"),
        Ok(Token::Float(FloatLiteral { negative: true, whole: 12, fraction: vec![0, 3, 4] }))
    );
    assert_eq!(
        classify_word("5."),
        Ok(Token::Float(FloatLiteral { negative: false, whole: 5, fraction: vec![] }))
    );
    assert_eq!(
        classify_word("-.5"),
        Ok(Token::Float(FloatLiteral { negative: true, whole: 0, fraction: vec![5] }))
    );
}

#[test]
fn float_without_digits_is_not_a_token() {
    assert_eq!(classify_word("."), Err(LexError::NoTokenFound));
    assert_eq!(classify_word("-."), Err(LexError::NoTokenFound));
    assert_eq!(classify_word("1.2e5"), Err(LexError::NoTokenFound));
}

#[test]
fn float_overflow_threshold() {
    // The largest whole part that still rounds to a finite 32-bit float.
    assert_eq!(
        classify_word("340282356779733661637539395458142568447.9"),
        Ok(Token::Float(FloatLiteral {
            negative: false,
            whole: 340282356779733661637539395458142568447,
            fraction: vec![9],
        }))
    );
    assert_eq!(
        classify_word("340282356779733661637539395458142568448.0"),
        Err(LexError::InvalidNumber)
    );
    assert_eq!(
        classify_word("-9999999999999999999999999999999999999999.0"),
        Err(LexError::InvalidNumber)
    );
    let finite: f32 = "340282356779733661637539395458142568447.9".parse().unwrap();
    assert!(finite.is_finite());
    let overflow: f32 = "340282356779733661637539395458142568448.0".parse().unwrap();
    assert!(overflow.is_infinite());
}

#[test]
fn two_char_operators_win_over_prefix() {
    let cases = [
        ("+=", Token::PlusEquals),
        ("-=", Token::MinusEquals),
        ("*=", Token::MultiplyEquals),
        ("/=", Token::DivideEquals),
        ("!=", Token::NotEquals),
        (">=", Token::GreaterThanOrEqual),
        ("<=", Token::LessThanOrEqual),
    ];
    for (text, token) in cases {
        let (tokens, diagnostics) = tokenize(text);
        assert_eq!(tokens.len(), 1);
        assert_eq!(tokens[0].token, token);
        assert!(diagnostics.is_empty());
    }
}

#[test]
fn lone_minus_is_operator() {
    assert_eq!(classify_word("-"), Ok(Token::Minus));
    assert_eq!(classify_word("!"), Err(LexError::NoTokenFound));
    assert_eq!(classify_word("="), Err(LexError::NoTokenFound));
}

#[test]
fn keywords_and_identifiers() {
    assert_eq!(classify_word("if"), Ok(Token::If));
    assert_eq!(classify_word("else"), Ok(Token::Else));
    assert_eq!(classify_word("while"), Ok(Token::While));
    assert_eq!(classify_word("iff"), Ok(Token::String("iff".to_string())));
    assert_eq!(classify_word("a_1"), Ok(Token::String("a_1".to_string())));
    assert_eq!(classify_word("_a"), Err(LexError::NoTokenFound));
    assert!(Token::String("x".to_string()).is_identifier());
    assert!(!Token::If.is_identifier());
}

#[test]
fn concatenation_keeps_order() {
    let words = ["x", "78", "8.4", "54RR", "+=", "while"];
    for a in words {
        for b in words {
            let (ta, da) = tokenize(a);
            let (tb, db) = tokenize(b);
            let (tab, dab) = tokenize(&format!("{} {}", a, b));
            let joined: Vec<_> = ta.iter().chain(tb.iter()).map(|t| (t.token.clone(), t.value.clone())).collect();
            let got: Vec<_> = tab.iter().map(|t| (t.token.clone(), t.value.clone())).collect();
            assert_eq!(got, joined);
            assert_eq!(dab.len(), da.len() + db.len());
        }
    }
}

#[test]
fn skipped_words_are_counted() {
    let (tokens, diagnostics) = tokenize("a 1x b 2..3 + ?? 5");
    assert_eq!(tokens.len(), 4);
    assert_eq!(diagnostics.len(), 3);
    let words: Vec<&str> = diagnostics.iter().map(|d| d.word.as_str()).collect();
    assert_eq!(words, vec!["1x", "2..3", "??"]);
    assert!(tokens.iter().all(|t| t.value != "1x" && t.value != "2..3" && t.value != "??"));
}

#[test]
fn whitespace_runs_split_words() {
    let words = split_words("  a\t\tb\n c\r\n  ");
    assert_eq!(words, vec!["a".to_string(), "b".to_string(), "c".to_string()]);
    assert!(split_words(" \t\n").is_empty());
    let tokens = process_text("\tif\n");
    assert_eq!(tokens.len(), 1);
    assert_eq!(tokens[0].token, Token::If);
}
