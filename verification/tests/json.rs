use learnkit::json::errors::JSONError;
use learnkit::json::json_parser::{parse_data, JSONValue};
use learnkit::json::structs::{JSONToken, TokenMetaData};
use learnkit::json::tokenizer::tokenize;

fn lit(s: &str) -> JSONToken {
    JSONToken::Literal(String::from(s))
}

fn text(s: &str) -> JSONToken {
    JSONToken::String(String::from(s))
}

#[test]
fn test_tokenize() {
    let s = "{\"bar\": [107, true, false, null, -4.5e+7, 3E-8]}";
    let result = tokenize(s);

    // Get rid of token data to make matching easier
    let tokens: Vec<JSONToken> = result.unwrap().into_iter().map(|data| data.token).collect();

    assert_eq!(
        tokens,
        vec![
            JSONToken::CurlyOpen,
            JSONToken::String(String::from("bar")),
            JSONToken::Colon,
            JSONToken::BracketOpen,
            JSONToken::Literal(String::from("107")),
            JSONToken::Comma,
            JSONToken::Literal(String::from("true")),
            JSONToken::Comma,
            JSONToken::Literal(String::from("false")),
            JSONToken::Comma,
            JSONToken::Literal(String::from("null")),
            JSONToken::Comma,
            JSONToken::Literal(String::from("-4.5e+7")),
            JSONToken::Comma,
            JSONToken::Literal(String::from("3E-8")),
            JSONToken::BracketClose,
            JSONToken::CurlyClose,
        ]
    );
}

#[test]
fn test_tokenize_literal() {
    let s = "null";
    let result = tokenize(s);

    // Get rid of token data to make matching easier
    let token = result.unwrap().pop().unwrap().token;

    assert_eq!(token, JSONToken::Literal(String::from("null")));
}

#[test]
fn test_tokenize_string() {
    let s = "\"Hello World\"";
    let result = tokenize(s);

    // Get rid of token data to make matching easier
    let token = result.unwrap().pop().unwrap().token;

    assert_eq!(token, JSONToken::String(String::from("Hello World")));
}

#[test]
fn test_tokenize_array() {
    let s = "[1,2,    3]";
    let result = tokenize(s);

    // Get rid of token data to make matching easier
    let tokens: Vec<JSONToken> = result.unwrap().into_iter().map(|data| data.token).collect();

    assert_eq!(
        tokens,
        vec![
            JSONToken::BracketOpen,
            JSONToken::Literal(String::from("1")),
            JSONToken::Comma,
            JSONToken::Literal(String::from("2")),
            JSONToken::Comma,
            JSONToken::Literal(String::from("3")),
            JSONToken::BracketClose,
        ]
    );
}

#[test]
fn test_tokenize_multiline() {
    let s = "
    {
        \"key\": [
            1,
            2,
            3
        ]
    }
        ";
    let result = tokenize(s);

    // Get rid of token data to make matching easier
    let tokens: Vec<JSONToken> = result.unwrap().into_iter().map(|data| data.token).collect();

    assert_eq!(
        tokens,
        vec![
            JSONToken::CurlyOpen,
            JSONToken::String(String::from("key")),
            JSONToken::Colon,
            JSONToken::BracketOpen,
            JSONToken::Literal(String::from("1")),
            JSONToken::Comma,
            JSONToken::Literal(String::from("2")),
            JSONToken::Comma,
            JSONToken::Literal(String::from("3")),
            JSONToken::BracketClose,
            JSONToken::CurlyClose,
        ]
    );
}

#[test]
fn test_tokenize_empty_string() {
    let s = "";
    let result = tokenize(s);

    // Get rid of token data to make matching easier
    let tokens: Vec<JSONToken> = result.unwrap().into_iter().map(|data| data.token).collect();

    assert_eq!(tokens, vec![]);
}

#[test]
fn test_tokenize_string_after_literal() {
    let s = "45HELLO";
    let result = tokenize(s);

    assert!(result.is_err())
}

#[test]
fn test_tokenize_invalid_syntax_no_comma() {
    let s = "[1,2{\"a\": 4}]";
    let result = tokenize(s);

    println!("{:?}", result);

    assert!(result.is_err())
}

#[test]
fn test_unclosed_string_should_fail() {
    let s = "\"test";
    let result = tokenize(s);

    assert!(result.is_err())
}

#[test]
fn test_parse() {
    let data = parse_data("{\"key\": 123}").unwrap();
    println!("{:?}", data);

    let data2 = parse_data("{\"key\": [1, 2.0, true, false, null]}").unwrap();
    println!("{:?}", data2);
}

#[test]
fn test_should_fail_multiple_roots() {
    let data = parse_data("{\"key\": 123}123");
    assert!(data.is_err());
}

#[test]
fn tokenize_positions_of_tokens() {
    let tokens = tokenize("{\"k\":\n  12 }").unwrap();
    assert_eq!(
        tokens,
        vec![
            TokenMetaData { line: 0, col: 1, token: JSONToken::CurlyOpen },
            TokenMetaData { line: 0, col: 2, token: text("k") },
            TokenMetaData { line: 0, col: 5, token: JSONToken::Colon },
            TokenMetaData { line: 1, col: 3, token: lit("12") },
            TokenMetaData { line: 1, col: 6, token: JSONToken::CurlyClose },
        ]
    );
}

#[test]
fn tokenize_invalid_char_error() {
    match tokenize("45HELLO") {
        Err(JSONError::TokenizerError { message, line, col }) => {
            assert_eq!(message, "Invalid char: H");
            assert_eq!((line, col), (0, 3));
        }
        other => panic!("unexpected {:?}", other),
    }
    match tokenize("[1,2, {\"a\": 4}]\n@") {
        Err(JSONError::TokenizerError { message, line, col }) => {
            assert_eq!(message, "Invalid char: @");
            assert_eq!((line, col), (1, 1));
        }
        other => panic!("unexpected {:?}", other),
    }
}

#[test]
fn tokenize_object_right_after_literal_is_an_error() {
    match tokenize("[1,2{\"a\": 4}]") {
        Err(JSONError::TokenizerError { message, line, col }) => {
            assert_eq!(message, "Invalid char: {");
            assert_eq!((line, col), (0, 5));
        }
        other => panic!("unexpected {:?}", other),
    }
    // Other tokens may follow a literal directly.
    let tokens: Vec<JSONToken> = tokenize("[true[").unwrap().into_iter().map(|t| t.token).collect();
    assert_eq!(tokens, vec![JSONToken::BracketOpen, lit("true"), JSONToken::BracketOpen]);
    let tokens: Vec<JSONToken> = tokenize("12\"x\"").unwrap().into_iter().map(|t| t.token).collect();
    assert_eq!(tokens, vec![lit("12"), text("x")]);
    match tokenize("1\"abc") {
        Err(JSONError::TokenizerError { message, line, col }) => {
            assert_eq!(message, "Unclosed string");
            assert_eq!((line, col), (0, 2));
        }
        other => panic!("unexpected {:?}", other),
    }
    // With a separator in between the same tokens are accepted.
    assert_eq!(tokenize("[1,2 {").unwrap().len(), 5);
}

#[test]
fn tokenize_unclosed_string_error() {
    match tokenize("[ \"test") {
        Err(JSONError::TokenizerError { message, line, col }) => {
            assert_eq!(message, "Unclosed string");
            assert_eq!((line, col), (0, 3));
        }
        other => panic!("unexpected {:?}", other),
    }
    // An opening quote with nothing after it leaves no text behind.
    assert_eq!(tokenize("\"").unwrap(), vec![]);
}

#[test]
fn tokenize_escapes() {
    let tokens = tokenize("\"a\\nb\\\"c\\\\d\\te\"").unwrap();
    assert_eq!(tokens.len(), 1);
    assert_eq!(tokens[0].token, text("a\nb\"c\\dte"));
}

#[test]
fn tokenize_whitespace_separates_literals() {
    let tokens: Vec<JSONToken> = tokenize("1\t2\u{3000}3\r\n4")
        .unwrap()
        .into_iter()
        .map(|t| t.token)
        .collect();
    assert_eq!(tokens, vec![lit("1"), lit("2"), lit("3"), lit("4")]);
    // A literal may end right before a closing bracket, a comma or a colon.
    let tokens: Vec<JSONToken> = tokenize("[x:y,z]").unwrap().into_iter().map(|t| t.token).collect();
    assert_eq!(
        tokens,
        vec![
            JSONToken::BracketOpen,
            lit("x"),
            JSONToken::Colon,
            lit("y"),
            JSONToken::Comma,
            lit("z"),
            JSONToken::BracketClose
        ]
    );
}

fn object_members(v: &JSONValue) -> &Vec<learnkit::json::json_parser::JSONMember> {
    match v {
        JSONValue::Object { members } => members,
        other => panic!("not an object: {:?}", other),
    }
}

#[test]
fn parse_builds_value_tree() {
    let v = parse_data("{\"key\": [1, 2.0, true, false, null, \"s\", {}]}").unwrap();
    let members = object_members(&v);
    assert_eq!(members.len(), 1);
    assert_eq!(members[0].key, "key");
    match &members[0].value {
        JSONValue::Array { elements } => {
            assert_eq!(elements.len(), 7);
            assert!(matches!(&elements[0], JSONValue::Number(n) if n.raw == "1"));
            assert!(matches!(&elements[1], JSONValue::Number(n) if n.raw == "2.0"));
            assert!(matches!(elements[2], JSONValue::Bool(true)));
            assert!(matches!(elements[3], JSONValue::Bool(false)));
            assert!(matches!(elements[4], JSONValue::Null));
            assert!(matches!(&elements[5], JSONValue::String(s) if s == "s"));
            assert!(object_members(&elements[6]).is_empty());
        }
        other => panic!("not an array: {:?}", other),
    }
}

#[test]
fn parse_empty_containers() {
    assert!(matches!(parse_data("[]"), Ok(JSONValue::Array { elements }) if elements.is_empty()));
    assert!(object_members(&parse_data("{}").unwrap()).is_empty());
    let v = parse_data("{\"a\": 1, \"b\": []}").unwrap();
    let members = object_members(&v);
    assert_eq!(members.len(), 2);
    assert_eq!(members[1].key, "b");
}

#[test]
fn parse_rejects_trailing_commas() {
    match parse_data("{\"a\": 1, }") {
        Err(JSONError::UnexpectedToken { token }) => {
            assert_eq!(token, TokenMetaData { line: 0, col: 10, token: JSONToken::CurlyClose });
        }
        other => panic!("unexpected {:?}", other),
    }
    match parse_data("[1,]") {
        Err(JSONError::ParserError { token, .. }) => assert_eq!(token.token, JSONToken::BracketClose),
        other => panic!("unexpected {:?}", other),
    }
}

#[test]
fn parse_nested_array_error_propagates() {
    match parse_data("[[1,]") {
        Err(JSONError::ParserError { message, token }) => {
            assert_eq!(message, "Unexpected token");
            assert_eq!(token, TokenMetaData { line: 0, col: 5, token: JSONToken::BracketClose });
        }
        other => panic!("unexpected {:?}", other),
    }
    assert!(parse_data("[[1,]]").is_err());
    match parse_data("[[]]") {
        Ok(JSONValue::Array { elements }) => {
            assert_eq!(elements.len(), 1);
            assert!(matches!(&elements[0], JSONValue::Array { elements } if elements.is_empty()));
        }
        other => panic!("unexpected {:?}", other),
    }
}

#[test]
fn parse_numbers_by_json_grammar() {
    for ok in ["123", "1.23", "-45", "-0.34", "3.6e3", "5.6e+3", "5e-3", "-5e+3", "0", "3E-8", "-0"] {
        match parse_data(ok) {
            Ok(JSONValue::Number(n)) => assert_eq!(n.raw, ok),
            other => panic!("{} gave {:?}", ok, other),
        }
    }
    for bad in ["012", "+45", "5.6e+3.6", "-", "1.", ".5", "1e", "1e+", "abc", "--1", "1.2.3", "00"] {
        match parse_data(bad) {
            Err(JSONError::ParserError { message, token }) => {
                assert_eq!(message, "Invalid number");
                assert_eq!(token.token, lit(bad));
            }
            other => panic!("{} gave {:?}", bad, other),
        }
    }
    assert!(parse_data("[1, 012]").is_err());
}

#[test]
fn parse_errors() {
    assert!(matches!(parse_data(""), Err(JSONError::UnexpectedEOF)));
    assert!(matches!(parse_data("[1, 2"), Err(JSONError::UnexpectedEOF)));
    assert!(matches!(parse_data("{\"a\""), Err(JSONError::UnexpectedEOF)));
    match parse_data("{\"key\": 123}123") {
        Err(JSONError::UnexpectedToken { token }) => {
            assert_eq!(token, TokenMetaData { line: 0, col: 13, token: lit("123") });
        }
        other => panic!("unexpected {:?}", other),
    }
    match parse_data("[1 2]") {
        Err(JSONError::ParserError { message, token }) => {
            assert_eq!(message, "Unexpected token in array");
            assert_eq!(token.token, lit("2"));
        }
        other => panic!("unexpected {:?}", other),
    }
    match parse_data("[1,]") {
        Err(JSONError::ParserError { message, token }) => {
            assert_eq!(message, "Unexpected token");
            assert_eq!(token.token, JSONToken::BracketClose);
        }
        other => panic!("unexpected {:?}", other),
    }
    match parse_data("{1: 2}") {
        Err(JSONError::UnexpectedToken { token }) => assert_eq!(token.token, lit("1")),
        other => panic!("unexpected {:?}", other),
    }
    match parse_data("{\"a\" 2}") {
        Err(JSONError::UnexpectedToken { token }) => assert_eq!(token.token, lit("2")),
        other => panic!("unexpected {:?}", other),
    }
    match parse_data("{\"a\": 2 3}") {
        Err(JSONError::UnexpectedToken { token }) => assert_eq!(token.token, lit("3")),
        other => panic!("unexpected {:?}", other),
    }
    assert!(matches!(parse_data("\"open"), Err(JSONError::TokenizerError { .. })));
}

#[test]
fn error_messages() {
    assert_eq!(JSONError::UnexpectedEOF.message(), "Unexpected end of file");
    let token = TokenMetaData { line: 2, col: 4, token: JSONToken::Comma };
    assert_eq!(
        JSONError::UnexpectedToken { token: token.clone() }.message(),
        "Unexpected token"
    );
    assert_eq!(
        JSONError::ParserError { message: String::from("bad"), token }.message(),
        "bad"
    );
    let err = tokenize("#").unwrap_err();
    assert_eq!(err.message(), "Invalid char: #");
}
