//! An alternative parsed-value shape in which dotted structure is kept as
//! explicit pairs: a datum is an atom, a proper list, or a dotted pair of
//! two data. Values bound for the interpreter hold owned text; the loader
//! side replaces such ownership with interned handles.

use vstd::prelude::*;

verus! {

/// A syntactically valid datum with explicit dotted pairs.
#[derive(Debug, PartialEq, Eq)]
pub enum SchemeParserValue {
    Atom(String),
    IntNumber(i64),
    Boolean(bool),
    Text(String),
    Character(char),
    DottedPair(Box<SchemeParserValue>, Box<SchemeParserValue>),
    List(Vec<SchemeParserValue>),
}

impl SchemeParserValue {
    /// An atom datum with the given text.
    pub fn atom(x: String) -> (r: Self)
        ensures
            r == SchemeParserValue::Atom(x),
    {
        Self::Atom(x)
    }

    /// An integer literal.
    pub fn int_number(x: i64) -> (r: Self)
        ensures
            r == SchemeParserValue::IntNumber(x),
    {
        Self::IntNumber(x)
    }

    /// A boolean literal.
    pub fn boolean(x: bool) -> (r: Self)
        ensures
            r == SchemeParserValue::Boolean(x),
    {
        Self::Boolean(x)
    }

    /// A character literal.
    pub fn character(x: char) -> (r: Self)
        ensures
            r == SchemeParserValue::Character(x),
    {
        Self::Character(x)
    }

    /// A string literal.
    pub fn string(x: String) -> (r: Self)
        ensures
            r == SchemeParserValue::Text(x),
    {
        Self::Text(x)
    }

    /// A proper list of data.
    pub fn list(x: Vec<SchemeParserValue>) -> (r: Self)
        ensures
            r == SchemeParserValue::List(x),
    {
        Self::List(x)
    }

    /// A dotted pair `(x . y)`.
    pub fn pair(x: SchemeParserValue, y: SchemeParserValue) -> (r: Self)
        ensures
            r matches SchemeParserValue::DottedPair(a, d) && *a == x && *d == y,
    {
        Self::DottedPair(Box::new(x), Box::new(y))
    }

    /// A dotted form whose leading data are grouped as one list:
    /// `((x0 x1 ...) . y)`.
    pub fn left_nested(x: Vec<SchemeParserValue>, y: SchemeParserValue) -> (r: Self)
        ensures
            r matches SchemeParserValue::DottedPair(a, d) && *a == SchemeParserValue::List(x) && *d
                == y,
    {
        Self::DottedPair(Box::new(Self::List(x)), Box::new(y))
    }
}

} // verus!
