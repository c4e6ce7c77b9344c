use compiler::{tokenize, LexError, TokenType};

fn ident(s: &str) -> TokenType {
    TokenType::Identifier(s.to_string())
}

fn keyword(s: &str) -> TokenType {
    TokenType::Keyword(s.to_string())
}

fn op(s: &str) -> TokenType {
    TokenType::Operator(s.to_string())
}

#[test]
fn empty_input_gives_only_eof() {
    assert_eq!(tokenize(""), Ok(vec![TokenType::EOF]));
}

#[test]
fn whitespace_only_gives_only_eof() {
    assert_eq!(tokenize(" \t\n  \n\t"), Ok(vec![TokenType::EOF]));
    assert_eq!(tokenize(" "), Ok(vec![TokenType::EOF]));
}

#[test]
fn eof_is_last_and_unique() {
    let tokens = tokenize("if (a) { b = 1; } else { c = 2; }").unwrap();
    assert_eq!(tokens.last(), Some(&TokenType::EOF));
    let count = tokens.iter().filter(|t| **t == TokenType::EOF).count();
    assert_eq!(count, 1);
}

#[test]
fn let_statement_example() {
    assert_eq!(
        tokenize("let x = 5 + 5;"),
        Ok(vec![
            ident("let"),
            ident("x"),
            op("="),
            TokenType::Number(5),
            op("+"),
            TokenType::Number(5),
            TokenType::Separator(';'),
            TokenType::EOF,
        ])
    );
}

#[test]
fn leading_zeros_and_underscores() {
    assert_eq!(
        tokenize("x12_y = 007"),
        Ok(vec![ident("x12_y"), op("="), TokenType::Number(7), TokenType::EOF])
    );
}

#[test]
fn unknown_character_is_reported() {
    assert_eq!(tokenize("a $ b"), Err(LexError::UnknownCharacter('$')));
    assert_eq!(tokenize("a\rb"), Err(LexError::UnknownCharacter('\r')));
    assert_eq!(tokenize("x = é"), Err(LexError::UnknownCharacter('é')));
}

#[test]
fn first_error_wins() {
    assert_eq!(tokenize("# 99999999999999999999"), Err(LexError::UnknownCharacter('#')));
    assert_eq!(tokenize("99999999999999999999 #"), Err(LexError::NumeralOverflow));
}

#[test]
fn minus_is_not_fused() {
    assert_eq!(
        tokenize("-5"),
        Ok(vec![op("-"), TokenType::Number(5), TokenType::EOF])
    );
}

#[test]
fn numeral_one_beyond_i64_max_overflows() {
    assert_eq!(tokenize("9223372036854775808"), Err(LexError::NumeralOverflow));
    assert_eq!(tokenize("x = 18446744073709551616"), Err(LexError::NumeralOverflow));
}

#[test]
fn numeral_at_i64_max_is_accepted() {
    assert_eq!(
        tokenize("9223372036854775807"),
        Ok(vec![TokenType::Number(i64::MAX), TokenType::EOF])
    );
    assert_eq!(
        tokenize("00009223372036854775807"),
        Ok(vec![TokenType::Number(i64::MAX), TokenType::EOF])
    );
}

#[test]
fn every_reserved_word_is_a_keyword() {
    for word in [
        "if", "elif", "else", "while", "for", "str", "int", "float", "bool", "char", "return",
    ] {
        assert_eq!(tokenize(word), Ok(vec![keyword(word), TokenType::EOF]));
    }
}

#[test]
fn near_keywords_are_identifiers() {
    assert_eq!(tokenize("iff"), Ok(vec![ident("iff"), TokenType::EOF]));
    assert_eq!(tokenize("ifx"), Ok(vec![ident("ifx"), TokenType::EOF]));
    assert_eq!(tokenize("If"), Ok(vec![ident("If"), TokenType::EOF]));
    assert_eq!(tokenize("_if"), Ok(vec![ident("_if"), TokenType::EOF]));
}

#[test]
fn all_operators_and_separators() {
    assert_eq!(
        tokenize("+-*/%=(){}[],;"),
        Ok(vec![
            op("+"),
            op("-"),
            op("*"),
            op("/"),
            op("%"),
            op("="),
            TokenType::Separator('('),
            TokenType::Separator(')'),
            TokenType::Separator('{'),
            TokenType::Separator('}'),
            TokenType::Separator('['),
            TokenType::Separator(']'),
            TokenType::Separator(','),
            TokenType::Separator(';'),
            TokenType::EOF,
        ])
    );
}

#[test]
fn double_equals_is_two_operators() {
    assert_eq!(tokenize("=="), Ok(vec![op("="), op("="), TokenType::EOF]));
}

#[test]
fn digits_then_letters_split() {
    assert_eq!(
        tokenize("12ab"),
        Ok(vec![TokenType::Number(12), ident("ab"), TokenType::EOF])
    );
}

#[test]
fn keyword_inside_statement() {
    assert_eq!(
        tokenize("while(i){return i;}"),
        Ok(vec![
            keyword("while"),
            TokenType::Separator('('),
            ident("i"),
            TokenType::Separator(')'),
            TokenType::Separator('{'),
            keyword("return"),
            ident("i"),
            TokenType::Separator(';'),
            TokenType::Separator('}'),
            TokenType::EOF,
        ])
    );
}

fn text_of(t: &TokenType) -> String {
    match t {
        TokenType::Keyword(s)
        | TokenType::Identifier(s)
        | TokenType::StringLiteral(s)
        | TokenType::Operator(s) => s.clone(),
        TokenType::Number(n) => n.to_string(),
        TokenType::Separator(c) => c.to_string(),
        TokenType::EOF => String::new(),
    }
}

#[test]
fn token_texts_rebuild_source_without_whitespace() {
    let input = "for (i = 10; i % 3; i = i - 1) {\n\tx_1 = x_1 * 205 / y;\n}";
    let tokens = tokenize(input).unwrap();
    let joined: String = tokens.iter().map(text_of).collect();
    let stripped: String = input.chars().filter(|c| !matches!(c, ' ' | '\t' | '\n')).collect();
    assert_eq!(joined, stripped);
}
