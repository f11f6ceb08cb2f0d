use vstd::prelude::*;

verus! {

/// A name or literal, as written.
#[derive(Debug, PartialEq, Eq, Clone)]
pub struct Value {
    pub value: String,
}

/// One item of a select list; for now an identifier.
#[derive(Debug, PartialEq, Eq, Clone)]
pub struct Expression {
    pub value: Value,
}

/// The source named after FROM.
#[derive(Debug, PartialEq, Eq, Clone)]
pub struct FromClause {
    pub value: Value,
}

/// The expressions after SELECT, in order.
#[derive(Debug, PartialEq, Eq, Clone)]
pub struct SelectClause {
    pub exps: Vec<Expression>,
}

#[derive(Debug, PartialEq, Eq, Clone)]
pub struct SelectStatement {
    pub select: SelectClause,
    pub from: Option<FromClause>,
}

/// The root of a parsed query.
#[derive(Debug, PartialEq, Eq, Clone)]
pub struct Ast {
    pub stmt: SelectStatement,
}

/// The mathematical value of a statement: the names selected, and the source if any.
pub struct StatementView {
    pub select: Seq<Seq<char>>,
    pub from: Option<Seq<char>>,
}

impl View for Value {
    type V = Seq<char>;

    open spec fn view(&self) -> Seq<char> {
        self.value@
    }
}

impl View for Expression {
    type V = Seq<char>;

    open spec fn view(&self) -> Seq<char> {
        self.value@
    }
}

impl View for FromClause {
    type V = Seq<char>;

    open spec fn view(&self) -> Seq<char> {
        self.value@
    }
}

pub open spec fn expressions_view(exps: Seq<Expression>) -> Seq<Seq<char>> {
    exps.map_values(|e: Expression| e@)
}

impl View for SelectClause {
    type V = Seq<Seq<char>>;

    open spec fn view(&self) -> Seq<Seq<char>> {
        expressions_view(self.exps@)
    }
}

impl View for SelectStatement {
    type V = StatementView;

    open spec fn view(&self) -> StatementView {
        StatementView {
            select: self.select@,
            from: match self.from {
                Some(f) => Some(f@),
                None => None,
            },
        }
    }
}

impl View for Ast {
    type V = StatementView;

    open spec fn view(&self) -> StatementView {
        self.stmt@
    }
}

} // verus!
