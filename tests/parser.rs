use sqlfront::ast::{Ast, Expression, FromClause, SelectClause, SelectStatement, Value};
use sqlfront::parser::{ParseError, Parser};
use sqlfront::tokenizer::Tokenizer;

fn parse_text(text: &str) -> Result<Ast, ParseError> {
    Parser::new(Tokenizer::new(text).tokenize().unwrap()).parse()
}

fn expression(name: &str) -> Expression {
    Expression {
        value: Value {
            value: String::from(name),
        },
    }
}

#[test]
fn select_one_identifier() {
    assert_eq!(
        parse_text("select piyo"),
        Ok(Ast {
            stmt: SelectStatement {
                select: SelectClause {
                    exps: vec![expression("piyo")],
                },
                from: None,
            },
        })
    );
}

#[test]
fn empty_select_list() {
    assert_eq!(
        parse_text("select"),
        Ok(Ast {
            stmt: SelectStatement {
                select: SelectClause { exps: vec![] },
                from: None,
            },
        })
    );
}

#[test]
fn statement_must_start_with_select() {
    assert_eq!(parse_text("from foo"), Err(ParseError::MissingSelect));
    assert_eq!(Parser::new(vec![]).parse().unwrap_err(), ParseError::MissingSelect);
}

#[test]
fn select_list_and_source() {
    assert_eq!(
        parse_text("SELECT a b FROM t"),
        Ok(Ast {
            stmt: SelectStatement {
                select: SelectClause {
                    exps: vec![expression("a"), expression("b")],
                },
                from: Some(FromClause {
                    value: Value {
                        value: String::from("t"),
                    },
                }),
            },
        })
    );
}

#[test]
fn only_identifiers_are_expressions() {
    assert_eq!(
        parse_text("select *"),
        Err(ParseError::UnsupportedExpression { pos: 7 })
    );
    assert_eq!(
        parse_text("select a 12"),
        Err(ParseError::UnsupportedExpression { pos: 9 })
    );
}

#[test]
fn from_needs_a_source() {
    assert_eq!(
        parse_text("select a from"),
        Err(ParseError::MissingSource { pos: 9 })
    );
    assert_eq!(
        parse_text("select a from \"x\""),
        Err(ParseError::MissingSource { pos: 9 })
    );
}

#[test]
fn nothing_may_follow_the_source() {
    assert_eq!(
        parse_text("select a from foo.bar"),
        Err(ParseError::TrailingToken { pos: 17 })
    );
}

#[test]
fn parse_error_messages() {
    assert_eq!(
        ParseError::MissingSelect.message(),
        "statement does not start with SELECT"
    );
    assert_eq!(
        ParseError::UnsupportedExpression { pos: 0 }.message(),
        "cannot parse expression"
    );
    assert_eq!(
        ParseError::MissingSource { pos: 0 }.message(),
        "FROM is not followed by a source name"
    );
    assert_eq!(
        ParseError::TrailingToken { pos: 0 }.message(),
        "unexpected token after the statement"
    );
}
