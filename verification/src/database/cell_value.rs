//! The value that a cell holds.

use vstd::prelude::*;

verus! {

/// The populated variant of a cell.
#[derive(Debug, Clone, PartialEq)]
pub enum Value {
    IntVal(i64),
    StrVal(String),
    NullVal(bool),
}

/// What a `Value` stands for.
pub enum ValueSpec {
    IntVal(i64),
    StrVal(Seq<char>),
    NullVal(bool),
}

impl View for Value {
    type V = ValueSpec;

    open spec fn view(&self) -> ValueSpec {
        match *self {
            Value::IntVal(v) => ValueSpec::IntVal(v),
            Value::StrVal(s) => ValueSpec::StrVal(s@),
            Value::NullVal(b) => ValueSpec::NullVal(b),
        }
    }
}

} // verus!
