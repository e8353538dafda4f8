//! The two ways in which reading an attribute can fail.

use vstd::prelude::*;

verus! {

/// The text did not have the shape that the attribute asks for.
#[derive(Debug, Clone, PartialEq, Eq)]
pub struct ParseError {
    /// What was expected, for a human reader.
    pub display: String,
}

impl ParseError {
    /// A parse error that carries `msg` unchanged.
    pub fn new(msg: &str) -> (e: ParseError)
        ensures
            e.display@ == msg@,
    {
        ParseError { display: msg.to_owned() }
    }
}

/// Why an attribute was rejected.
#[derive(Debug, Clone, PartialEq, Eq)]
pub enum AttributeError {
    /// Malformed syntax.
    Parse(ParseError),
    /// Well-formed syntax, but a value that the attribute does not allow.
    Value(String),
}

impl AttributeError {
    /// True of the syntax errors.
    pub open spec fn is_parse(self) -> bool {
        self is Parse
    }

    /// True of the errors about a value.
    pub open spec fn is_value(self) -> bool {
        self is Value
    }

    /// Tells a syntax error from the rest.
    pub fn is_parse_error(&self) -> (b: bool)
        ensures
            b == self.is_parse(),
    {
        match self {
            AttributeError::Parse(_) => true,
            AttributeError::Value(_) => false,
        }
    }

    /// Tells an error about a value from the rest.
    pub fn is_value_error(&self) -> (b: bool)
        ensures
            b == self.is_value(),
    {
        match self {
            AttributeError::Parse(_) => false,
            AttributeError::Value(_) => true,
        }
    }

    /// The message that the error carries.
    pub open spec fn message(self) -> Seq<char> {
        match self {
            AttributeError::Parse(e) => e.display@,
            AttributeError::Value(m) => m@,
        }
    }

    /// The message that the error carries, for a human reader.
    pub fn to_message(&self) -> (m: String)
        ensures
            m@ == self.message(),
    {
        match self {
            AttributeError::Parse(e) => e.display.clone(),
            AttributeError::Value(m) => m.clone(),
        }
    }
}

} // verus!
