//! The errors of the library.

use crate::std_text::parse_error_description;
use core::num::ParseIntError;
use vstd::prelude::*;
use vstd::std_specs::convert::FromSpecImpl;
use vstd::string::*;

verus! {

/// What a command can fail with.
#[derive(Debug)]
pub enum DbError {
    MetaUnrecognized,
    StatementUnrecognized,
    StatementSyntaxError,
    TableFull,
    ParsingError(ParseIntError),
    /// A live row holds bytes that are no record.
    DecodeError,
}

impl From<ParseIntError> for DbError {
    fn from(err: ParseIntError) -> (r: DbError) {
        DbError::ParsingError(err)
    }
}

impl FromSpecImpl<ParseIntError> for DbError {
    open spec fn obeys_from_spec() -> bool {
        true
    }

    open spec fn from_spec(err: ParseIntError) -> DbError {
        DbError::ParsingError(err)
    }
}

impl DbError {
    /// The sentence shown to the user. For a number that did not parse it
    /// is the parser's own, as `to_string` gives it.
    pub fn message(&self) -> (text: String)
        ensures
            self is MetaUnrecognized ==> text@ == "Meta command unrecognized"@,
            self is StatementUnrecognized ==> text@ == "Statement unrecognized"@,
            self is StatementSyntaxError ==> text@ == "Statement has syntax error"@,
            self is TableFull ==> text@ == "Table is full"@,
            self is DecodeError ==> text@ == "Row cannot be decoded"@,
            self matches DbError::ParsingError(err) ==> to_string_from_display_ensures::<
                ParseIntError,
            >(&err, text),
    {
        match self {
            DbError::MetaUnrecognized => "Meta command unrecognized".to_owned(),
            DbError::StatementUnrecognized => "Statement unrecognized".to_owned(),
            DbError::StatementSyntaxError => "Statement has syntax error".to_owned(),
            DbError::TableFull => "Table is full".to_owned(),
            DbError::ParsingError(err) => err.to_string(),
            DbError::DecodeError => "Row cannot be decoded".to_owned(),
        }
    }

    /// The error in a few words. For a number that did not parse they are
    /// the parser's own.
    pub fn description(&self) -> (text: &str)
        ensures
            self is MetaUnrecognized ==> text@ == "Unrecognized"@,
            self is StatementUnrecognized ==> text@ == "Unrecognized"@,
            self is StatementSyntaxError ==> text@ == "Syntax Error"@,
            self is TableFull ==> text@ == "Table full"@,
            self is DecodeError ==> text@ == "Decode error"@,
    {
        match self {
            DbError::MetaUnrecognized => "Unrecognized",
            DbError::StatementUnrecognized => "Unrecognized",
            DbError::StatementSyntaxError => "Syntax Error",
            DbError::TableFull => "Table full",
            DbError::ParsingError(err) => parse_error_description(err),
            DbError::DecodeError => "Decode error",
        }
    }

    /// The error underneath, where there is one.
    pub fn cause(&self) -> (r: Option<&ParseIntError>)
        ensures
            match *self {
                DbError::ParsingError(err) => r == Some(&err),
                _ => r is None,
            },
    {
        match self {
            DbError::ParsingError(err) => Some(err),
            _ => None,
        }
    }
}

} // verus!
