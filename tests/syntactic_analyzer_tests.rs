use json_parser_rs::json::constants;
use json_parser_rs::json::lexer::{Decimal, Token, TokenStream};
use json_parser_rs::json::syntactic_analyzer::{
    parse, valid_parantheses, JsonPair, JsonValue, ParseError,
};

fn one() -> Decimal {
    Decimal {
        negative: false,
        digits: "1.0".to_string(),
    }
}

fn one_value() -> f32 {
    one().digits.parse().unwrap()
}

#[test]
pub fn test_parantheses_empty_stream() {
    let token_stream = TokenStream::default();

    assert!(valid_parantheses(&token_stream));
    assert_eq!(parse(token_stream).err(), Some(ParseError::EmptyJson));
}

#[test]
pub fn test_parantheses_valid() {
    let mut token_stream = TokenStream::default();
    token_stream.push(constants::LEFT_BRACE.into());
    token_stream.push(constants::RIGHT_BRACE.into());

    assert!(valid_parantheses(&token_stream));
}

#[test]
pub fn test_parantheses_valid_many() {
    let mut token_stream = TokenStream::default();
    token_stream.push(constants::LEFT_BRACE.into());
    token_stream.push(constants::LEFT_BRACE.into());

    token_stream.push(constants::LEFT_BRACE.into());
    token_stream.push(constants::RIGHT_BRACE.into());

    token_stream.push(constants::LEFT_BRACE.into());
    token_stream.push(constants::RIGHT_BRACE.into());

    token_stream.push(constants::RIGHT_BRACE.into());
    token_stream.push(constants::RIGHT_BRACE.into());

    assert!(valid_parantheses(&token_stream));
}

#[test]
pub fn test_parantheses_valid_json() {
    let mut token_stream = TokenStream::default();
    token_stream.push(constants::LEFT_BRACE.into());
    token_stream.push(Token::JsonString(String::from("key")));
    token_stream.push(':'.into());
    token_stream.push(Token::JsonString(String::from("value")));
    token_stream.push(constants::RIGHT_BRACE.into());

    assert!(valid_parantheses(&token_stream));
}

#[test]
pub fn test_parse_empty_object() {
    let mut token_stream = TokenStream::default();
    token_stream.push(constants::LEFT_BRACE.into());
    token_stream.push(constants::RIGHT_BRACE.into());

    let res = parse(token_stream).unwrap();
    assert_eq!(res, JsonValue::JsonObject(vec![]));
}

#[test]
pub fn test_parse_1_member_string() {
    let mut token_stream = TokenStream::default();
    token_stream.push(constants::LEFT_BRACE.into());
    token_stream.push(Token::JsonString(String::from("key")));
    token_stream.push(':'.into());
    token_stream.push(Token::JsonString(String::from("value")));
    token_stream.push(constants::RIGHT_BRACE.into());
    let res = parse(token_stream).unwrap();
    assert_eq!(
        res,
        JsonValue::JsonObject(vec![JsonPair(
            "key".to_string(),
            JsonValue::String("value".to_string())
        )])
    );
}

#[test]
pub fn test_parse_2_member_string_and_number() {
    let mut token_stream = TokenStream::default();
    token_stream.push(constants::LEFT_BRACE.into());
    token_stream.push(Token::JsonString(String::from("key1")));
    token_stream.push(':'.into());
    token_stream.push(Token::JsonString(String::from("value")));
    token_stream.push(Token::JsonString(String::from("key2")));
    token_stream.push(':'.into());
    token_stream.push(Token::Number(one()));
    token_stream.push(constants::RIGHT_BRACE.into());
    let res = parse(token_stream).unwrap();
    assert_eq!(
        res,
        JsonValue::JsonObject(vec![
            JsonPair("key1".to_string(), JsonValue::String("value".to_string())),
            JsonPair("key2".to_string(), JsonValue::Number(one()))
        ])
    );
    assert_eq!(one_value(), 1.0);
}

#[test]
pub fn test_parse_all_members() {
    let mut token_stream = TokenStream::default();
    token_stream.push(constants::LEFT_BRACE.into());
    token_stream.push(Token::JsonString(String::from("key1")));
    token_stream.push(':'.into());
    token_stream.push(Token::JsonString(String::from("value")));
    token_stream.push(Token::JsonString(String::from("key2")));
    token_stream.push(':'.into());
    token_stream.push(Token::Number(one()));
    token_stream.push(Token::JsonString(String::from("key3")));
    token_stream.push(':'.into());
    token_stream.push(Token::Boolean(true));
    token_stream.push(Token::JsonString(String::from("key4")));
    token_stream.push(':'.into());
    token_stream.push(Token::Null);
    token_stream.push(constants::RIGHT_BRACE.into());
    let res = parse(token_stream).unwrap();
    assert_eq!(
        res,
        JsonValue::JsonObject(vec![
            JsonPair("key1".to_string(), JsonValue::String("value".to_string())),
            JsonPair("key2".to_string(), JsonValue::Number(one())),
            JsonPair("key3".to_string(), JsonValue::Boolean(true),),
            JsonPair("key4".to_string(), JsonValue::Null,)
        ])
    );
}
