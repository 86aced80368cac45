use json_parser_rs::json::lexer::{
    lex, lex_bool, lex_null, lex_number, lex_string, Character, Decimal, LexerError, Token,
};

fn number_value(d: &Decimal) -> f32 {
    let magnitude: f32 = d.digits.parse().unwrap();
    if d.negative {
        magnitude * -1.00
    } else {
        magnitude
    }
}

fn punct(c: char) -> Token {
    Token::JsonCharacter(Character::new(c).unwrap())
}

fn number(negative: bool, digits: &str) -> Token {
    Token::Number(Decimal {
        negative,
        digits: digits.to_string(),
    })
}

#[test]
pub fn test_lex_string() {
    let string = r#"
            "key""value"
        "#;
    let string = string.trim();

    let (accumulated, last_processed_index) = lex_string(&string).unwrap();

    assert_eq!(accumulated, String::from("key"));
    assert_eq!(last_processed_index, 4);

    let cropped_input = if last_processed_index == string.len() - 1 {
        ""
    } else {
        &string[(last_processed_index + 1)..]
    };
    let (accumulated, last_processed_index) = lex_string(&cropped_input).unwrap();
    assert_eq!(accumulated, String::from("value"));
    assert_eq!(last_processed_index, 6);
}

#[test]
pub fn test_lexing_empty_valid_json() {
    let json = r#"
        {
        }
        "#;
    let json = json.trim();

    let res = lex(json).unwrap();
    let expected: Vec<Token> = vec!['{'.into(), '\n'.into(), '}'.into()];
    assert_eq!(*res, expected);
}

#[test]
pub fn test_lexing_only_strings_valid_json() {
    let json = r#"
{
    "key":"value"
}
"#;
    let json = json.trim();

    let res = lex(json).unwrap();

    let expected = vec![
        punct('{'),
        punct('\n'),
        Token::JsonString("key".to_string()),
        punct(':'),
        Token::JsonString("value".to_string()),
        punct('\n'),
        punct('}'),
    ];

    assert_eq!(*res, expected);
}

#[test]
pub fn test_lex_valid_number() {
    let input = "123";
    let (number, last_processed_index) = lex_number(input).unwrap();

    assert_eq!(number_value(&number), 123.00);
    assert_eq!(last_processed_index, 2);
}

#[test]
pub fn test_lex_valid_geative_number() {
    let input = "-123";
    let (number, last_processed_index) = lex_number(input).unwrap();

    assert_eq!(number_value(&number), -123.00);
    assert_eq!(last_processed_index, 3);
}

#[test]
pub fn test_lex_all_zeros() {
    let input = "0000";
    let (number, last_processed_index) = lex_number(input).unwrap();

    assert_eq!(number_value(&number), 0.00);
    assert_eq!(last_processed_index, 3);
}

#[test]
pub fn test_lex_float_number() {
    let input = "123.4";
    let (number, last_processed_index) = lex_number(input).unwrap();

    assert_eq!(number_value(&number), 123.40);
    assert_eq!(last_processed_index, 4);
}

#[test]
pub fn test_lex_negative_float_number() {
    let input = "-123.4";
    let (number, last_processed_index) = lex_number(input).unwrap();

    assert_eq!(number_value(&number), -123.40);
    assert_eq!(last_processed_index, 5);
}

#[test]
pub fn test_lex_json_containing_number() {
    let json = r#"
{
    "key":42
}
"#;
    let json = json.trim();

    let res = lex(json).unwrap();

    let expected = vec![
        punct('{'),
        punct('\n'),
        Token::JsonString("key".to_string()),
        punct(':'),
        number(false, "42"),
        punct('\n'),
        punct('}'),
    ];

    assert_eq!(*res, expected);
    match &res[4] {
        Token::Number(d) => assert_eq!(number_value(d), 42.0),
        other => panic!("not a number: {:?}", other),
    }
}

#[test]
pub fn test_lex_bool_true() {
    let input: &str = "true";
    let (result, last_processed_index) = lex_bool(input).unwrap();

    assert_eq!(result, true);
    assert_eq!(last_processed_index, 3);
}

#[test]
pub fn test_lex_bool_false() {
    let input: &str = "false";
    let (result, last_processed_index) = lex_bool(input).unwrap();

    assert_eq!(result, false);
    assert_eq!(last_processed_index, 4);
}

#[test]
pub fn test_lex_null() {
    let input: &str = "null,";
    let (result, last_processed_index) = lex_null(input).unwrap();

    assert_eq!(result, Token::Null);
    assert_eq!(last_processed_index, 3);
}

#[test]
pub fn test_lex_null_error() {
    let input: &str = "null";
    let result = lex_null(input);

    assert_eq!(result, Err(LexerError::NotANull));
}

#[test]
pub fn test_lex_json_containing_bool() {
    let json = r#"
{
    "key":true
}
"#;
    let json = json.trim();

    let res = lex(json).unwrap();
    let expected = vec![
        punct('{'),
        punct('\n'),
        Token::JsonString("key".to_string()),
        punct(':'),
        Token::Boolean(true),
        punct('\n'),
        punct('}'),
    ];

    assert_eq!(*res, expected);
}

#[test]
pub fn test_lex_json_containing_all() {
    let json = r#"
{
    "key1":"string",
    "key2":42,
    "key3":true,
    "key4":null
}
"#;
    let json = json.trim();

    let res = lex(json).unwrap();
    let expected = vec![
        punct('{'),
        punct('\n'),
        Token::JsonString("key1".to_string()),
        punct(':'),
        Token::JsonString("string".to_string()),
        punct(','),
        punct('\n'),
        Token::JsonString("key2".to_string()),
        punct(':'),
        number(false, "42"),
        punct(','),
        punct('\n'),
        Token::JsonString("key3".to_string()),
        punct(':'),
        Token::Boolean(true),
        punct(','),
        punct('\n'),
        Token::JsonString("key4".to_string()),
        punct(':'),
        Token::Null,
        punct('\n'),
        punct('}'),
    ];
    assert_eq!(*res, expected);
}
