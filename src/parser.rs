use vstd::prelude::*;
use vstd::string::StringExecFns;

use crate::ast::{
    expressions_view, Ast, Expression, FromClause, SelectClause, SelectStatement, StatementView,
    Value,
};
use crate::tokenizer::{Keyword, Lexeme, Token, TokenValue};

verus! {

/// Why a token sequence is not a statement.
#[derive(Debug, PartialEq, Eq, Clone, Copy)]
pub enum ParseError {
    /// The statement does not start with SELECT (or there are no tokens).
    MissingSelect,
    /// The token at `pos` cannot be parsed as an expression.
    UnsupportedExpression { pos: usize },
    /// The FROM at `pos` is not followed by an identifier.
    MissingSource { pos: usize },
    /// The statement is complete, and a token follows it at `pos`.
    TrailingToken { pos: usize },
}

impl ParseError {
    /// A description of the violated rule for people.
    pub fn message(&self) -> (r: String)
        ensures
            match *self {
                ParseError::MissingSelect => r@ == "statement does not start with SELECT"@,
                ParseError::UnsupportedExpression { .. } => r@ == "cannot parse expression"@,
                ParseError::MissingSource { .. } => r@ == "FROM is not followed by a source name"@,
                ParseError::TrailingToken { .. } => r@ == "unexpected token after the statement"@,
            },
    {
        match *self {
            ParseError::MissingSelect => String::from_str("statement does not start with SELECT"),
            ParseError::UnsupportedExpression { .. } => String::from_str("cannot parse expression"),
            ParseError::MissingSource { .. } => String::from_str("FROM is not followed by a source name"),
            ParseError::TrailingToken { .. } => String::from_str("unexpected token after the statement"),
        }
    }
}

pub open spec fn is_from_token(t: Token) -> bool {
    t.value@ == Lexeme::Keyword(Keyword::FROM)
}

/// The names in front of the items of `r`, or the error of `r`.
pub open spec fn gather(
    pre: Seq<Seq<char>>,
    r: Result<(Seq<Seq<char>>, int), ParseError>,
) -> Result<(Seq<Seq<char>>, int), ParseError> {
    match r {
        Ok((items, j)) => Ok((pre + items, j)),
        Err(e) => Err(e),
    }
}

/// The select list that starts at `ts[i]`: the identifiers up to the first
/// FROM or the end of the tokens, and the index where the list stops; or the
/// error at the first token that is neither.
pub open spec fn select_items(ts: Seq<Token>, i: int) -> Result<(Seq<Seq<char>>, int), ParseError>
    decreases ts.len() - i,
{
    if i < 0 || i >= ts.len() || is_from_token(ts[i]) {
        Ok((Seq::empty(), i))
    } else {
        match ts[i].value@ {
            Lexeme::Ident(n) => gather(seq![n], select_items(ts, i + 1)),
            _ => Err(ParseError::UnsupportedExpression { pos: ts[i].pos }),
        }
    }
}

/// A select list fails only on a token that is not an expression.
proof fn lemma_select_items_error(ts: Seq<Token>, i: int)
    ensures
        select_items(ts, i) is Err ==> select_items(ts, i)->Err_0 is UnsupportedExpression,
    decreases ts.len() - i,
{
    if 0 <= i < ts.len() && !is_from_token(ts[i]) {
        lemma_select_items_error(ts, i + 1);
    }
}

/// The source named by the FROM at `ts[j]`.
pub open spec fn from_source(ts: Seq<Token>, j: int) -> Result<Seq<char>, ParseError> {
    if j + 1 < ts.len() && ts[j + 1].value@ is Ident {
        Ok(ts[j + 1].value@->Ident_0)
    } else {
        Err(ParseError::MissingSource { pos: ts[j].pos })
    }
}

/// The statement that the tokens `ts` spell, or the first grammar violation.
pub open spec fn parse_tokens(ts: Seq<Token>) -> Result<StatementView, ParseError> {
    if ts.len() == 0 || ts[0].value@ != Lexeme::Keyword(Keyword::SELECT) {
        Err(ParseError::MissingSelect)
    } else {
        match select_items(ts, 1) {
            Err(e) => Err(e),
            Ok((items, j)) => if j >= ts.len() {
                Ok(StatementView { select: items, from: None })
            } else {
                match from_source(ts, j) {
                    Err(e) => Err(e),
                    Ok(name) => if j + 2 < ts.len() {
                        Err(ParseError::TrailingToken { pos: ts[j + 2].pos })
                    } else {
                        Ok(StatementView { select: items, from: Some(name) })
                    },
                }
            },
        }
    }
}

/// Builds a syntax tree from a token sequence.
pub struct Parser {
    tokens: Vec<Token>,
}

impl View for Parser {
    type V = Seq<Token>;

    closed spec fn view(&self) -> Seq<Token> {
        self.tokens@
    }
}

fn is_from(t: &Token) -> (r: bool)
    ensures
        r == is_from_token(*t),
{
    match t.value {
        TokenValue::Keyword(Keyword::FROM) => true,
        _ => false,
    }
}

impl Parser {
    pub fn new(tokens: Vec<Token>) -> (r: Parser)
        ensures
            r@ == tokens@,
    {
        Parser { tokens }
    }

    /// The statement that the tokens spell, or the first grammar violation.
    pub fn parse(&self) -> (r: Result<Ast, ParseError>)
        ensures
            r is Ok <==> parse_tokens(self@) is Ok,
            r is Ok ==> r->Ok_0@ == parse_tokens(self@)->Ok_0,
            r is Err ==> r->Err_0 == parse_tokens(self@)->Err_0,
    {
        let mut i: usize = 0;
        match self.parse_stmt(&mut i) {
            Ok(stmt) => Ok(Ast { stmt }),
            Err(e) => Err(e),
        }
    }

    fn parse_stmt(&self, i: &mut usize) -> (r: Result<SelectStatement, ParseError>)
        requires
            *old(i) == 0,
        ensures
            r is Ok <==> parse_tokens(self@) is Ok,
            r is Ok ==> r->Ok_0@ == parse_tokens(self@)->Ok_0,
            r is Err ==> r->Err_0 == parse_tokens(self@)->Err_0,
            r is Ok ==> *final(i) == self@.len(),
            (r is Err && r->Err_0 == ParseError::MissingSelect) ==> *final(i) == *old(i),
    {
        if self.tokens.len() == 0 {
            return Err(ParseError::MissingSelect);
        }
        match self.tokens[0].value {
            TokenValue::Keyword(Keyword::SELECT) => {},
            _ => {
                return Err(ParseError::MissingSelect);
            },
        }
        *i = 1;
        let select = match self.parse_select_clause(i) {
            Ok(c) => c,
            Err(e) => {
                proof {
                    lemma_select_items_error(self@, 1);
                }
                return Err(e);
            },
        };
        if *i >= self.tokens.len() {
            return Ok(SelectStatement { select, from: None });
        }
        let from = match self.parse_from_clause(i) {
            Ok(f) => f,
            Err(e) => {
                return Err(e);
            },
        };
        if *i < self.tokens.len() {
            return Err(ParseError::TrailingToken { pos: self.tokens[*i].pos });
        }
        Ok(SelectStatement { select, from: Some(from) })
    }

    fn parse_select_clause(&self, i: &mut usize) -> (r: Result<SelectClause, ParseError>)
        requires
            *old(i) <= self@.len(),
        ensures
            match select_items(self@, *old(i) as int) {
                Ok((items, j)) => r is Ok && r->Ok_0@ == items && *final(i) == j,
                Err(e) => r is Err && r->Err_0 == e,
            },
            r is Ok ==> *old(i) <= *final(i) <= self@.len(),
    {
        let ghost start = *i as int;
        let mut exps: Vec<Expression> = Vec::new();
        assert(expressions_view(exps@) + Seq::<Seq<char>>::empty() =~= Seq::<Seq<char>>::empty());
        while *i < self.tokens.len() && !is_from(&self.tokens[*i])
            invariant
                start == *old(i),
                start <= *i <= self@.len(),
                select_items(self@, start) == gather(expressions_view(exps@), select_items(self@, *i as int)),
            decreases self@.len() - *i,
        {
            let ghost at = *i as int;
            let exp = match self.parse_expression(i) {
                Ok(exp) => exp,
                Err(e) => {
                    return Err(e);
                },
            };
            proof {
                let rest = select_items(self@, *i as int);
                if let Ok((items, j)) = rest {
                    assert(expressions_view(exps@) + (seq![exp@] + items)
                        =~= expressions_view(exps@.push(exp)) + items);
                }
            }
            exps.push(exp);
        }
        assert(expressions_view(exps@) + Seq::<Seq<char>>::empty() =~= expressions_view(exps@));
        Ok(SelectClause { exps })
    }

    fn parse_expression(&self, i: &mut usize) -> (r: Result<Expression, ParseError>)
        requires
            *old(i) < self@.len(),
        ensures
            *final(i) == *old(i) + 1,
            match self@[*old(i) as int].value@ {
                Lexeme::Ident(n) => r is Ok && r->Ok_0@ == n,
                _ => r is Err && r->Err_0 == (ParseError::UnsupportedExpression { pos: self@[*old(i) as int].pos }),
            },
    {
        let at = *i;
        assert(at < self.tokens.len());
        let t = &self.tokens[at];
        *i = at + 1;
        match &t.value {
            TokenValue::Ident(n) => Ok(Expression { value: Value { value: n.clone() } }),
            _ => Err(ParseError::UnsupportedExpression { pos: t.pos }),
        }
    }

    fn parse_from_clause(&self, i: &mut usize) -> (r: Result<FromClause, ParseError>)
        requires
            *old(i) < self@.len(),
        ensures
            match from_source(self@, *old(i) as int) {
                Ok(name) => r is Ok && r->Ok_0@ == name && *final(i) == *old(i) + 2,
                Err(e) => r is Err && r->Err_0 == e,
            },
    {
        let at = *i;
        assert(at < self.tokens.len());
        if at + 1 < self.tokens.len() {
            if let TokenValue::Ident(n) = &self.tokens[at + 1].value {
                *i = at + 2;
                return Ok(FromClause { value: Value { value: n.clone() } });
            }
        }
        Err(ParseError::MissingSource { pos: self.tokens[at].pos })
    }
}

} // verus!
