use json_parser_rs::json::lexer::{
    crop_content, lex, lex_bool, lex_character, lex_null, lex_number, lex_string, Character,
    Decimal, FloatErrorKind, LexerError, Token, TokenStream,
};
use json_parser_rs::json::syntactic_analyzer::{
    parse, parse_object, parse_object_members, parse_pair, parse_value, valid_parantheses,
    JsonPair, JsonValue, ParseError,
};

fn punct(c: char) -> Token {
    Token::JsonCharacter(Character::new(c).unwrap())
}

fn text(s: &str) -> Token {
    Token::JsonString(s.to_string())
}

fn stream(tokens: Vec<Token>) -> TokenStream {
    TokenStream { tokens }
}

fn read(json: &str) -> Result<JsonValue, ParseError> {
    parse(lex(json).unwrap())
}

#[test]
fn structural_characters_are_accepted() {
    for c in ['"', '[', ']', '{', '}', ':', '\n', ','] {
        assert_eq!(Character::new(c), Ok(Character(c)));
    }
}

#[test]
fn other_characters_are_refused() {
    for c in ['a', ' ', '1', '\t', '(', '-'] {
        assert_eq!(Character::new(c), Err(LexerError::NotAJsonChar));
    }
}

#[test]
fn char_into_token() {
    assert_eq!(Token::from('{'), Token::JsonCharacter(Character('{')));
    assert_eq!(Token::from('a'), Token::Other('a'));
}

#[test]
fn empty_input_is_refused() {
    assert_eq!(lex("").err(), Some(LexerError::EmptyInput));
    assert_eq!(lex(" \n\t ").err(), Some(LexerError::EmptyInput));
}

#[test]
fn surrounding_white_space_is_trimmed() {
    let res = lex("\n\n  {\n}\n  ").unwrap();
    assert_eq!(*res, vec![punct('{'), punct('\n'), punct('}')]);
}

#[test]
fn spaces_between_tokens_are_skipped() {
    let res = lex("{ \"k\" : \"v\" }").unwrap();
    assert_eq!(
        *res,
        vec![punct('{'), text("k"), punct(':'), text("v"), punct('}')]
    );
}

#[test]
fn unknown_characters_fail_tokenizing() {
    assert_eq!(lex("{x}").err(), Some(LexerError::InvalidJson));
}

#[test]
fn number_needs_a_newline_or_comma_after_it() {
    assert_eq!(lex("{\"a\":1}").err(), Some(LexerError::InvalidJson));
}

#[test]
fn text_must_end_in_a_structural_character() {
    assert_eq!(lex("\"abc\"").err(), Some(LexerError::InvalidJson));
}

#[test]
fn lex_string_errors() {
    assert_eq!(lex_string(""), Err(LexerError::EmptyInput));
    assert_eq!(lex_string("abc"), Err(LexerError::NotAString));
}

#[test]
fn lex_string_without_closing_quote() {
    assert_eq!(lex_string("\"abc"), Ok((String::from("abc"), 0)));
}

#[test]
fn lex_number_errors() {
    assert_eq!(lex_number("").err(), Some(LexerError::EmptyInput));
    assert_eq!(lex_number("12a").err(), Some(LexerError::NotANumber));
    assert_eq!(
        lex_number(",").err(),
        Some(LexerError::NotAFloat(FloatErrorKind::Empty))
    );
    assert_eq!(
        lex_number("1.2.3").err(),
        Some(LexerError::NotAFloat(FloatErrorKind::Invalid))
    );
    assert_eq!(
        lex_number(".").err(),
        Some(LexerError::NotAFloat(FloatErrorKind::Invalid))
    );
}

#[test]
fn lex_number_stops_at_comma() {
    let (d, last) = lex_number("7,8").unwrap();
    assert_eq!(
        d,
        Decimal {
            negative: false,
            digits: String::from("7")
        }
    );
    assert_eq!(last, 0);
}

#[test]
fn lex_number_negative_value() {
    let (d, last) = lex_number("-123.4").unwrap();
    assert!(d.negative);
    assert_eq!(d.digits, "123.4");
    let magnitude: f32 = d.digits.parse().unwrap();
    assert_eq!(-magnitude, -123.40);
    assert_eq!(last, 5);
}

#[test]
fn lex_bool_error() {
    assert_eq!(lex_bool(""), Err(LexerError::EmptyInput));
    assert_eq!(lex_bool("yes"), Err(LexerError::NotABool));
    assert_eq!(lex_bool("truex"), Ok((true, 3)));
}

#[test]
fn lex_null_variants() {
    assert_eq!(lex_null(""), Err(LexerError::EmptyInput));
    assert_eq!(lex_null("nul"), Err(LexerError::NotANull));
    assert_eq!(lex_null("null\n"), Ok((Token::Null, 3)));
}

#[test]
fn lex_character_variants() {
    assert_eq!(lex_character(""), Err(LexerError::EmptyInput));
    assert_eq!(lex_character("{x"), Ok(punct('{')));
    assert_eq!(lex_character("x{"), Ok(Token::Other('x')));
}

#[test]
fn crop_content_cuts_after_index() {
    assert_eq!(crop_content("abc", 2), "");
    assert_eq!(crop_content("abc", 0), "bc");
    assert_eq!(crop_content("héllo", 1), "llo");
}

#[test]
fn parse_empty_text_object() {
    assert_eq!(read("{}"), Ok(JsonValue::JsonObject(vec![])));
    assert_eq!(read("{\n}"), Ok(JsonValue::JsonObject(vec![])));
}

#[test]
fn parse_one_member_text() {
    assert_eq!(
        read("{\"key\":\"value\"}"),
        Ok(JsonValue::JsonObject(vec![JsonPair(
            "key".to_string(),
            JsonValue::String("value".to_string())
        )]))
    );
}

#[test]
fn round_trip_each_value_kind() {
    assert_eq!(
        read("{\n\"name\":\"json\"\n}"),
        Ok(JsonValue::JsonObject(vec![JsonPair(
            "name".to_string(),
            JsonValue::String("json".to_string())
        )]))
    );
    assert_eq!(
        read("{\n\"n\":-12.5\n}"),
        Ok(JsonValue::JsonObject(vec![JsonPair(
            "n".to_string(),
            JsonValue::Number(Decimal {
                negative: true,
                digits: "12.5".to_string()
            })
        )]))
    );
    assert_eq!(
        read("{\n\"b\":false\n}"),
        Ok(JsonValue::JsonObject(vec![JsonPair(
            "b".to_string(),
            JsonValue::Boolean(false)
        )]))
    );
    assert_eq!(
        read("{\n\"z\":null\n}"),
        Ok(JsonValue::JsonObject(vec![JsonPair(
            "z".to_string(),
            JsonValue::Null
        )]))
    );
}

#[test]
fn members_separated_by_commas() {
    assert_eq!(
        read("{\"a\":\"x\",\"b\":\"y\"}"),
        Ok(JsonValue::JsonObject(vec![
            JsonPair("a".to_string(), JsonValue::String("x".to_string())),
            JsonPair("b".to_string(), JsonValue::String("y".to_string())),
        ]))
    );
}

#[test]
fn four_members_of_each_kind() {
    let json = "{\n    \"key1\":\"string\",\n    \"key2\":42,\n    \"key3\":true,\n    \"key4\":null\n}";
    assert_eq!(
        read(json),
        Ok(JsonValue::JsonObject(vec![
            JsonPair("key1".to_string(), JsonValue::String("string".to_string())),
            JsonPair(
                "key2".to_string(),
                JsonValue::Number(Decimal {
                    negative: false,
                    digits: "42".to_string()
                })
            ),
            JsonPair("key3".to_string(), JsonValue::Boolean(true)),
            JsonPair("key4".to_string(), JsonValue::Null),
        ]))
    );
}

#[test]
fn duplicate_keys_after_commas_are_kept() {
    let tokens = stream(vec![
        punct('{'),
        text("a"),
        punct(':'),
        text("x"),
        punct(','),
        text("a"),
        punct(':'),
        text("y"),
        punct('}'),
    ]);
    assert_eq!(
        parse(tokens),
        Ok(JsonValue::JsonObject(vec![
            JsonPair("a".to_string(), JsonValue::String("x".to_string())),
            JsonPair("a".to_string(), JsonValue::String("y".to_string())),
        ]))
    );
}

#[test]
fn object_members_led_by_commas() {
    let tokens = [
        text("a"),
        punct(':'),
        Token::Null,
        punct(','),
        text("b"),
        punct(':'),
        Token::Boolean(false),
        punct(','),
        text("c"),
        punct(':'),
        text("z"),
        punct('}'),
    ];
    assert_eq!(
        parse_object_members(&tokens),
        Ok(vec![
            JsonPair("a".to_string(), JsonValue::Null),
            JsonPair("b".to_string(), JsonValue::Boolean(false)),
            JsonPair("c".to_string(), JsonValue::String("z".to_string())),
        ])
    );
}

#[test]
fn unclosed_brace_is_rejected() {
    let tokens = stream(vec![punct('{')]);
    assert!(!valid_parantheses(&tokens));
    assert_eq!(parse(tokens), Err(ParseError::InvalidParantheses));
    assert!(!valid_parantheses(&stream(vec![punct('{'), punct('{'), punct('}')])));
}

#[test]
fn duplicate_keys_are_kept_in_order() {
    let tokens = stream(vec![
        punct('{'),
        text("k"),
        punct(':'),
        text("first"),
        text("k"),
        punct(':'),
        text("second"),
        punct('}'),
    ]);
    assert_eq!(
        parse(tokens),
        Ok(JsonValue::JsonObject(vec![
            JsonPair("k".to_string(), JsonValue::String("first".to_string())),
            JsonPair("k".to_string(), JsonValue::String("second".to_string())),
        ]))
    );
}

#[test]
fn nested_object_value_is_invalid() {
    assert_eq!(
        read("{\n\"key\":{\n\"inner\":\"x\"\n}\n}"),
        Err(ParseError::InvalidValue)
    );
    let tokens = stream(vec![
        punct('{'),
        text("key"),
        punct(':'),
        punct('{'),
        punct('}'),
        punct('}'),
    ]);
    assert_eq!(parse(tokens), Err(ParseError::InvalidValue));
}

#[test]
fn wrongly_typed_closer_is_rejected() {
    let tokens = stream(vec![punct('{'), punct(']')]);
    assert!(!valid_parantheses(&tokens));
    assert_eq!(parse(tokens), Err(ParseError::InvalidParantheses));
}

#[test]
fn unmatched_closer_is_rejected() {
    let tokens = stream(vec![punct('{'), punct('}'), punct('}')]);
    assert!(!valid_parantheses(&tokens));
    assert!(!valid_parantheses(&stream(vec![punct('}')])));
}

#[test]
fn top_level_array_is_not_read() {
    assert_eq!(read("[\n]"), Err(ParseError::InvalidParantheses));
    let tokens = stream(vec![punct('['), punct('{'), punct('}')]);
    assert_eq!(parse(tokens), Err(ParseError::InvalidPair));
}

#[test]
fn parse_errors() {
    assert_eq!(parse(stream(vec![])), Err(ParseError::EmptyJson));
    assert_eq!(
        parse(stream(vec![text("a")])),
        Err(ParseError::NotValidJsonObjectOrArray)
    );
    assert_eq!(
        parse(stream(vec![punct('{'), text("a"), punct('}')])),
        Err(ParseError::InvalidPair)
    );
    assert_eq!(
        parse(stream(vec![punct('{'), text("a"), punct(':'), punct(':'), punct('}')])),
        Err(ParseError::InvalidValue)
    );
}

#[test]
fn parse_pair_variants() {
    assert_eq!(parse_pair(&[punct('}')]), Err(ParseError::EmptyObject));
    assert_eq!(
        parse_pair(&[punct(','), text("a"), punct(':')]),
        Err(ParseError::InvalidPair)
    );
    assert_eq!(
        parse_pair(&[punct(','), text("a"), punct(':'), Token::Null]),
        Ok(JsonPair("a".to_string(), JsonValue::Null))
    );
    assert_eq!(
        parse_pair(&[text("a"), punct(','), Token::Null]),
        Err(ParseError::InvalidPair)
    );
}

#[test]
fn parse_value_variants() {
    assert_eq!(parse_value(&[Token::Null]), Ok(JsonValue::Null));
    assert_eq!(parse_value(&[Token::Boolean(true)]), Ok(JsonValue::Boolean(true)));
    assert_eq!(parse_value(&[punct(':')]), Err(ParseError::InvalidValue));
    assert_eq!(parse_value(&[Token::Other('x')]), Err(ParseError::InvalidValue));
}

#[test]
fn parse_object_and_members() {
    let tokens = [text("a"), punct(':'), text("v"), punct('}')];
    assert_eq!(
        parse_object(&tokens),
        Ok(JsonValue::JsonObject(vec![JsonPair(
            "a".to_string(),
            JsonValue::String("v".to_string())
        )]))
    );
    assert_eq!(parse_object_members(&[]), Ok(vec![]));
}
