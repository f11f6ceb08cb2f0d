use sqlfront::tokenizer::{Keyword, LexError, Token, TokenValue, Tokenizer};

fn make_tokens(items: &[(usize, TokenValue)]) -> Vec<Token> {
    items
        .iter()
        .map(|(pos, value)| Token {
            pos: *pos,
            value: value.clone(),
        })
        .collect()
}

fn assert_tokens(code: &str, expect: &[(usize, TokenValue)]) {
    assert_eq!(
        make_tokens(expect),
        Tokenizer::new(code).tokenize().unwrap()
    );
}

fn values(code: &str) -> Vec<TokenValue> {
    Tokenizer::new(code)
        .tokenize()
        .unwrap()
        .into_iter()
        .map(|t| t.value)
        .collect()
}

#[test]
fn test_tokenize() {
    assert_tokens(
        "select * from foo.bar",
        &[
            (0, TokenValue::Keyword(Keyword::SELECT)),
            (7, TokenValue::Asterisk),
            (9, TokenValue::Keyword(Keyword::FROM)),
            (14, TokenValue::Ident(String::from("foo"))),
            (17, TokenValue::Period),
            (18, TokenValue::Ident(String::from("bar"))),
        ],
    );
}

#[test]
fn test_many_spaces() {
    assert_tokens(
        "  select  *  from   foo  .   bar   ",
        &[
            (2, TokenValue::Keyword(Keyword::SELECT)),
            (10, TokenValue::Asterisk),
            (13, TokenValue::Keyword(Keyword::FROM)),
            (20, TokenValue::Ident(String::from("foo"))),
            (25, TokenValue::Period),
            (29, TokenValue::Ident(String::from("bar"))),
        ],
    );
}

#[test]
fn test_literals() {
    assert_tokens(
        "select 123, \"this is a string literal\" from a.b.c",
        &[
            (0, TokenValue::Keyword(Keyword::SELECT)),
            (7, TokenValue::Number(123)),
            (10, TokenValue::Comma),
            (
                12,
                TokenValue::String(String::from("this is a string literal")),
            ),
            (39, TokenValue::Keyword(Keyword::FROM)),
            (44, TokenValue::Ident(String::from("a"))),
            (45, TokenValue::Period),
            (46, TokenValue::Ident(String::from("b"))),
            (47, TokenValue::Period),
            (48, TokenValue::Ident(String::from("c"))),
        ],
    );
}

#[test]
fn number_string_and_comma() {
    assert_eq!(
        values("select 123, \"hi\" from a"),
        vec![
            TokenValue::Keyword(Keyword::SELECT),
            TokenValue::Number(123),
            TokenValue::Comma,
            TokenValue::String(String::from("hi")),
            TokenValue::Keyword(Keyword::FROM),
            TokenValue::Ident(String::from("a")),
        ]
    );
}

#[test]
fn empty_text_has_no_tokens() {
    assert_eq!(Tokenizer::new("").tokenize().unwrap(), vec![]);
    assert_eq!(Tokenizer::new("   ").tokenize().unwrap(), vec![]);
}

#[test]
fn keywords_ignore_case() {
    for text in ["SELECT", "select", "SeLeCt"] {
        assert_tokens(text, &[(0, TokenValue::Keyword(Keyword::SELECT))]);
    }
    assert_tokens("FrOm", &[(0, TokenValue::Keyword(Keyword::FROM))]);
}

#[test]
fn identifiers_keep_their_case() {
    assert_tokens(
        "Foo_Bar selects",
        &[
            (0, TokenValue::Ident(String::from("Foo_Bar"))),
            (8, TokenValue::Ident(String::from("selects"))),
        ],
    );
}

#[test]
fn digits_end_a_word() {
    assert_tokens(
        "foo1",
        &[
            (0, TokenValue::Ident(String::from("foo"))),
            (3, TokenValue::Number(1)),
        ],
    );
}

#[test]
fn extra_spaces_leave_values_alone() {
    assert_eq!(values("select   a ,  b"), values("select a , b"));
}

#[test]
fn positions_count_characters_not_bytes() {
    assert_tokens(
        "\"héllo\" x",
        &[
            (0, TokenValue::String(String::from("héllo"))),
            (8, TokenValue::Ident(String::from("x"))),
        ],
    );
}

#[test]
fn empty_string_literal() {
    assert_tokens("\"\"", &[(0, TokenValue::String(String::new()))]);
}

#[test]
fn largest_number() {
    assert_tokens("2147483647", &[(0, TokenValue::Number(2147483647))]);
    assert_tokens("007", &[(0, TokenValue::Number(7))]);
}

#[test]
fn number_too_large_is_an_error() {
    assert_eq!(
        Tokenizer::new("select 2147483648").tokenize(),
        Err(LexError::NumberOutOfRange { pos: 7 })
    );
}

#[test]
fn unsupported_character_is_an_error() {
    assert_eq!(
        Tokenizer::new("select $").tokenize(),
        Err(LexError::Unsupported { ch: '$', pos: 7 })
    );
    assert_eq!(
        Tokenizer::new("a\tb").tokenize(),
        Err(LexError::Unsupported { ch: '\t', pos: 1 })
    );
}

#[test]
fn unterminated_string_is_an_error() {
    assert_eq!(
        Tokenizer::new("select \"unterminated").tokenize(),
        Err(LexError::UnterminatedString { pos: 7 })
    );
}

#[test]
fn lexical_error_messages() {
    assert_eq!(
        LexError::Unsupported { ch: '$', pos: 7 }.message(),
        "$ is not supported"
    );
    assert_eq!(
        LexError::UnterminatedString { pos: 7 }.message(),
        "unterminated string literal"
    );
    assert_eq!(
        LexError::NumberOutOfRange { pos: 0 }.message(),
        "number does not fit in 32 bits"
    );
}

#[test]
fn spaces_inside_strings_are_kept() {
    assert_tokens(
        "\"a  b\"  c",
        &[
            (0, TokenValue::String(String::from("a  b"))),
            (8, TokenValue::Ident(String::from("c"))),
        ],
    );
}

#[test]
fn collapsing_several_space_runs_keeps_values() {
    assert_eq!(
        values("  select   a ,   \"x  y\"    from  t  "),
        values(" select a , \"x  y\" from t ")
    );
}
