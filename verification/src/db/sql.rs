//! Statements for the database, with the values of their parameters.

use vstd::prelude::*;
use vstd::string::*;

use crate::float_bits::FloatBits;

verus! {

/// The value of a parameter.
#[derive(Debug, Clone)]
pub enum SqlValue {
    Null,
    Integer(i64),
    Real(FloatBits),
    Text(String),
}

/// A statement with the values of its parameters, in order.
#[derive(Debug, Clone)]
pub struct Statement {
    pub sql: String,
    pub params: Vec<SqlValue>,
}

/// What a parameter says.
pub enum SqlView {
    Null,
    Integer(int),
    Real(FloatBits),
    Text(Seq<char>),
}

/// What a statement says.
pub struct StatementView {
    pub sql: Seq<char>,
    pub params: Seq<SqlView>,
}

impl View for SqlValue {
    type V = SqlView;

    open spec fn view(&self) -> SqlView {
        match self {
            SqlValue::Null => SqlView::Null,
            SqlValue::Integer(n) => SqlView::Integer(*n as int),
            SqlValue::Real(bits) => SqlView::Real(*bits),
            SqlValue::Text(s) => SqlView::Text(s@),
        }
    }
}

/// What each parameter of a list says.
pub open spec fn value_views(values: Seq<SqlValue>) -> Seq<SqlView> {
    values.map_values(|v: SqlValue| v@)
}

impl View for Statement {
    type V = StatementView;

    open spec fn view(&self) -> StatementView {
        StatementView { sql: self.sql@, params: value_views(self.params@) }
    }
}

/// What each statement of a list says.
pub open spec fn statement_views(statements: Seq<Statement>) -> Seq<StatementView> {
    statements.map_values(|s: Statement| s@)
}

pub open spec fn optional_text(s: Option<String>) -> SqlView {
    match s {
        Some(s) => SqlView::Text(s@),
        None => SqlView::Null,
    }
}

pub open spec fn optional_i32(n: Option<i32>) -> SqlView {
    match n {
        Some(n) => SqlView::Integer(n as int),
        None => SqlView::Null,
    }
}

pub open spec fn optional_i64(n: Option<i64>) -> SqlView {
    match n {
        Some(n) => SqlView::Integer(n as int),
        None => SqlView::Null,
    }
}

pub open spec fn optional_real(bits: Option<FloatBits>) -> SqlView {
    match bits {
        Some(bits) => SqlView::Real(bits),
        None => SqlView::Null,
    }
}

/// A truth value is 1 or 0.
pub open spec fn truth(b: bool) -> SqlView {
    SqlView::Integer(
        if b {
            1
        } else {
            0
        },
    )
}

/// A statement without parameters yet.
pub(crate) fn statement(sql: &str) -> (r: Statement)
    ensures
        r@ == (StatementView { sql: sql@, params: Seq::empty() }),
{
    let r = Statement { sql: sql.to_string(), params: Vec::new() };
    proof {
        assert(value_views(r.params@) =~= Seq::<SqlView>::empty());
    }
    r
}

impl Statement {
    /// Appends a parameter.
    pub(crate) fn push(&mut self, value: SqlValue)
        ensures
            final(self)@ == (StatementView {
                sql: old(self)@.sql,
                params: old(self)@.params.push(value@),
            }),
    {
        self.params.push(value);
        proof {
            assert(value_views(self.params@) =~= old(self)@.params.push(value@));
        }
    }

    pub(crate) fn push_text(&mut self, s: &str)
        ensures
            final(self)@ == (StatementView {
                sql: old(self)@.sql,
                params: old(self)@.params.push(SqlView::Text(s@)),
            }),
    {
        self.push(SqlValue::Text(s.to_string()));
    }

    pub(crate) fn push_integer(&mut self, n: i64)
        ensures
            final(self)@ == (StatementView {
                sql: old(self)@.sql,
                params: old(self)@.params.push(SqlView::Integer(n as int)),
            }),
    {
        self.push(SqlValue::Integer(n));
    }

    pub(crate) fn push_truth(&mut self, b: bool)
        ensures
            final(self)@ == (StatementView {
                sql: old(self)@.sql,
                params: old(self)@.params.push(truth(b)),
            }),
    {
        self.push(
            SqlValue::Integer(
                if b {
                    1
                } else {
                    0
                },
            ),
        );
    }

    pub(crate) fn push_optional_text(&mut self, s: &Option<String>)
        ensures
            final(self)@ == (StatementView {
                sql: old(self)@.sql,
                params: old(self)@.params.push(optional_text(*s)),
            }),
    {
        match s {
            Some(s) => self.push_text(s.as_str()),
            None => self.push(SqlValue::Null),
        }
    }

    pub(crate) fn push_optional_i32(&mut self, n: Option<i32>)
        ensures
            final(self)@ == (StatementView {
                sql: old(self)@.sql,
                params: old(self)@.params.push(optional_i32(n)),
            }),
    {
        match n {
            Some(n) => self.push(SqlValue::Integer(n as i64)),
            None => self.push(SqlValue::Null),
        }
    }

    pub(crate) fn push_optional_i64(&mut self, n: Option<i64>)
        ensures
            final(self)@ == (StatementView {
                sql: old(self)@.sql,
                params: old(self)@.params.push(optional_i64(n)),
            }),
    {
        match n {
            Some(n) => self.push(SqlValue::Integer(n)),
            None => self.push(SqlValue::Null),
        }
    }

    pub(crate) fn push_optional_real(&mut self, bits: Option<FloatBits>)
        ensures
            final(self)@ == (StatementView {
                sql: old(self)@.sql,
                params: old(self)@.params.push(optional_real(bits)),
            }),
    {
        match bits {
            Some(bits) => self.push(SqlValue::Real(bits)),
            None => self.push(SqlValue::Null),
        }
    }
}

} // verus!
