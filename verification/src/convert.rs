//! Conversions between columns and vectors of optional values.

use crate::dataframe::Column;
use vstd::prelude::*;
use vstd::std_specs::convert::{FromSpecImpl, TryFromSpecImpl};

verus! {

impl From<Vec<Option<bool>>> for Column {
    fn from(v: Vec<Option<bool>>) -> (c: Column) {
        Column::Bool(v)
    }
}

impl FromSpecImpl<Vec<Option<bool>>> for Column {
    open spec fn obeys_from_spec() -> bool {
        true
    }

    open spec fn from_spec(v: Vec<Option<bool>>) -> Column {
        Column::Bool(v)
    }
}

impl From<Vec<Option<i64>>> for Column {
    fn from(v: Vec<Option<i64>>) -> (c: Column) {
        Column::Int(v)
    }
}

impl FromSpecImpl<Vec<Option<i64>>> for Column {
    open spec fn obeys_from_spec() -> bool {
        true
    }

    open spec fn from_spec(v: Vec<Option<i64>>) -> Column {
        Column::Int(v)
    }
}

impl From<Vec<Option<u64>>> for Column {
    fn from(v: Vec<Option<u64>>) -> (c: Column) {
        Column::Float(v)
    }
}

impl FromSpecImpl<Vec<Option<u64>>> for Column {
    open spec fn obeys_from_spec() -> bool {
        true
    }

    open spec fn from_spec(v: Vec<Option<u64>>) -> Column {
        Column::Float(v)
    }
}

impl From<Vec<Option<String>>> for Column {
    fn from(v: Vec<Option<String>>) -> (c: Column) {
        Column::String(v)
    }
}

impl FromSpecImpl<Vec<Option<String>>> for Column {
    open spec fn obeys_from_spec() -> bool {
        true
    }

    open spec fn from_spec(v: Vec<Option<String>>) -> Column {
        Column::String(v)
    }
}

impl TryFrom<Column> for Vec<Option<bool>> {
    type Error = &'static str;

    fn try_from(c: Column) -> (r: Result<Self, Self::Error>) {
        match c {
            Column::Bool(col) => Ok(col),
            _ => Err("The given column was not of type bool"),
        }
    }
}

impl TryFromSpecImpl<Column> for Vec<Option<bool>> {
    open spec fn obeys_try_from_spec() -> bool {
        true
    }

    open spec fn try_from_spec(c: Column) -> Result<Self, Self::Error> {
        match c {
            Column::Bool(col) => Ok(col),
            _ => Err("The given column was not of type bool"),
        }
    }
}

impl TryFrom<Column> for Vec<Option<i64>> {
    type Error = &'static str;

    fn try_from(c: Column) -> (r: Result<Self, Self::Error>) {
        match c {
            Column::Int(col) => Ok(col),
            _ => Err("The given column was not of type int"),
        }
    }
}

impl TryFromSpecImpl<Column> for Vec<Option<i64>> {
    open spec fn obeys_try_from_spec() -> bool {
        true
    }

    open spec fn try_from_spec(c: Column) -> Result<Self, Self::Error> {
        match c {
            Column::Int(col) => Ok(col),
            _ => Err("The given column was not of type int"),
        }
    }
}

impl TryFrom<Column> for Vec<Option<u64>> {
    type Error = &'static str;

    fn try_from(c: Column) -> (r: Result<Self, Self::Error>) {
        match c {
            Column::Float(col) => Ok(col),
            _ => Err("The given column was not of type float"),
        }
    }
}

impl TryFromSpecImpl<Column> for Vec<Option<u64>> {
    open spec fn obeys_try_from_spec() -> bool {
        true
    }

    open spec fn try_from_spec(c: Column) -> Result<Self, Self::Error> {
        match c {
            Column::Float(col) => Ok(col),
            _ => Err("The given column was not of type float"),
        }
    }
}

impl TryFrom<Column> for Vec<Option<String>> {
    type Error = &'static str;

    fn try_from(c: Column) -> (r: Result<Self, Self::Error>) {
        match c {
            Column::String(col) => Ok(col),
            _ => Err("The given column was not of type String"),
        }
    }
}

impl TryFromSpecImpl<Column> for Vec<Option<String>> {
    open spec fn obeys_try_from_spec() -> bool {
        true
    }

    open spec fn try_from_spec(c: Column) -> Result<Self, Self::Error> {
        match c {
            Column::String(col) => Ok(col),
            _ => Err("The given column was not of type String"),
        }
    }
}

} // verus!
