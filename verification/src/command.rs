//! The statements a user types, and what they do to a table.

use crate::error::DbError;
use crate::layout::{EMAIL_SIZE, TABLE_MAX_ROWS, USERID_SIZE};
use crate::pager::Paged;
use crate::row::{Record, Row};
use crate::std_text::{digits_of, digits_value, is_u32_text, parse_u32};
use crate::table::{page_of, records_of, Table};
use crate::text::{decimal, push_decimal, starts_with, word_ranges, words, words_at};
use vstd::prelude::*;
use vstd::string::*;

verus! {

/// The line of a record in the output of a select: `(id, user, email)` and
/// a line feed.
pub open spec fn rendered(rec: Record) -> Seq<u8> {
    seq!['(' as u8] + decimal(rec.id as nat) + seq![',' as u8, ' ' as u8] + rec.user_bytes()
        + seq![',' as u8, ' ' as u8] + rec.email_bytes() + seq![')' as u8, '\n' as u8]
}

/// The lines of the records, one after the other.
pub open spec fn rendered_all(records: Seq<Record>) -> Seq<u8>
    decreases records.len(),
{
    if records.len() == 0 {
        Seq::empty()
    } else {
        rendered_all(records.drop_last()) + rendered(records.last())
    }
}

/// The statements there are.
pub enum Statement {
    Select,
    Insert,
    Unrecognized,
}

/// The statement that a line asks for: it is known by how the line starts,
/// whatever follows the keyword.
pub open spec fn statement_of(input: Seq<char>) -> Statement {
    if "select"@.is_prefix_of(input) {
        Statement::Select
    } else if "insert"@.is_prefix_of(input) {
        Statement::Insert
    } else {
        Statement::Unrecognized
    }
}

/// What is wrong with an insert statement.
pub enum Malformed {
    /// Not four words, or a text too long for its field.
    Syntax,
    /// The id is no number that fits 32 bits.
    Number,
}

/// The record that an insert statement asks to add: its words are the
/// keyword, the id, the user id and the email address.
pub open spec fn insert_record(input: Seq<char>) -> Result<Record, Malformed> {
    let parts = words(input);
    if parts.len() != 4 {
        Err(Malformed::Syntax)
    } else if !is_u32_text(parts[1]) {
        Err(Malformed::Number)
    } else {
        let rec = Record {
            id: digits_value(digits_of(parts[1])) as u32,
            user_id: parts[2],
            email: parts[3],
        };
        if rec.fits() {
            Ok(rec)
        } else {
            Err(Malformed::Syntax)
        }
    }
}

/// Commands that start with a dot: none is known.
pub fn meta_command(_input: &str) -> (r: Result<(), DbError>)
    ensures
        r matches Err(DbError::MetaUnrecognized),
{
    Err(DbError::MetaUnrecognized)
}

/// Appends the line of `row` to `writer`.
pub fn write_row(writer: &mut Vec<u8>, row: &Row)
    ensures
        final(writer)@ == old(writer)@ + rendered(row@),
{
    writer.push('(' as u8);
    push_decimal(writer, row.id);
    writer.push(',' as u8);
    writer.push(' ' as u8);
    writer.extend_from_slice(row.user_id.as_str().as_bytes());
    writer.push(',' as u8);
    writer.push(' ' as u8);
    writer.extend_from_slice(row.email.as_str().as_bytes());
    writer.push(')' as u8);
    writer.push('\n' as u8);
    assert(writer@ =~= old(writer)@ + rendered(row@));
}

/// Reads the row out of an insert statement.
pub fn parse_insert(input: &str) -> (r: Result<Row, DbError>)
    ensures
        match insert_record(input@) {
            Ok(rec) => r matches Ok(row) && row@ == rec,
            Err(Malformed::Syntax) => r matches Err(DbError::StatementSyntaxError),
            Err(Malformed::Number) => r matches Err(DbError::ParsingError(_)),
        },
{
    let params = word_ranges(input);
    if params.len() != 4 {
        return Err(DbError::StatementSyntaxError);
    }
    assert(words(input@)[1] == words_at(input@, params@)[1]);
    assert(words(input@)[2] == words_at(input@, params@)[2]);
    assert(words(input@)[3] == words_at(input@, params@)[3]);
    let id = match parse_u32(input.substring_char(params[1].0, params[1].1)) {
        Ok(id) => id,
        Err(err) => {
            return Err(DbError::from(err));
        },
    };
    let user_id = input.substring_char(params[2].0, params[2].1);
    let email = input.substring_char(params[3].0, params[3].1);
    if user_id.as_bytes().len() > USERID_SIZE || email.as_bytes().len() > EMAIL_SIZE {
        return Err(DbError::StatementSyntaxError);
    }
    Ok(Row { id, user_id: user_id.to_owned(), email: email.to_owned() })
}

/// Runs one statement. A select appends the line of each row to `writer`,
/// an insert adds the row it spells. Where a page has to be read first the
/// statement hands back the fault and has changed nothing; where it fails
/// it has written nothing and the table is as it was.
pub fn statement_command(input: &str, table: &mut Table, writer: &mut Vec<u8>) -> (r: Result<
    Paged<()>,
    DbError,
>)
    requires
        old(table).wf(),
    ensures
        final(table).wf(),
        match statement_of(input@) {
            Statement::Select => final(table)@ == old(table)@ && match old(table)@.scan() {
                Ok(Paged::Ready(records)) => {
                    &&& r matches Ok(Paged::Ready(_))
                    &&& final(writer)@ == old(writer)@ + rendered_all(records)
                },
                Ok(Paged::Fault(read)) => {
                    &&& r matches Ok(Paged::Fault(fault)) && fault == read
                    &&& final(writer)@ == old(writer)@
                },
                Err(stop) => {
                    &&& r matches Err(e) && e == stop
                    &&& final(writer)@ == old(writer)@
                },
            },
            Statement::Insert => final(writer)@ == old(writer)@ && if old(table)@.num_rows
                >= TABLE_MAX_ROWS {
                r matches Err(DbError::TableFull) && final(table)@ == old(table)@
            } else {
                match insert_record(input@) {
                    Err(Malformed::Syntax) => {
                        &&& r matches Err(DbError::StatementSyntaxError)
                        &&& final(table)@ == old(table)@
                    },
                    Err(Malformed::Number) => {
                        &&& r matches Err(DbError::ParsingError(_))
                        &&& final(table)@ == old(table)@
                    },
                    Ok(rec) => match old(table)@.pager.pending_read(
                        page_of(old(table)@.num_rows),
                    ) {
                        Some(read) => {
                            &&& r matches Ok(Paged::Fault(fault)) && fault == read
                            &&& final(table)@ == old(table)@
                        },
                        None => {
                            &&& r matches Ok(Paged::Ready(_))
                            &&& final(table)@ == old(table)@.appended(rec)
                        },
                    },
                }
            },
            Statement::Unrecognized => {
                &&& r matches Err(DbError::StatementUnrecognized)
                &&& final(table)@ == old(table)@
                &&& final(writer)@ == old(writer)@
            },
        },
{
    if starts_with(input, "select") {
        let rows = match table.scan() {
            Err(e) => {
                return Err(e);
            },
            Ok(Paged::Fault(read)) => {
                return Ok(Paged::Fault(read));
            },
            Ok(Paged::Ready(rows)) => rows,
        };
        let mut i: usize = 0;
        assert(records_of(rows@).subrange(0, 0) =~= Seq::empty());
        while i < rows.len()
            invariant
                i <= rows@.len(),
                writer@ == old(writer)@ + rendered_all(records_of(rows@).subrange(0, i as int)),
            decreases rows@.len() - i,
        {
            write_row(writer, &rows[i]);
            proof {
                let done = records_of(rows@).subrange(0, i + 1);
                assert(done.drop_last() =~= records_of(rows@).subrange(0, i as int));
                assert(done.last() == rows@[i as int]@);
                assert(writer@ =~= old(writer)@ + rendered_all(done));
            }
            i += 1;
        }
        assert(records_of(rows@).subrange(0, i as int) =~= records_of(rows@));
        Ok(Paged::Ready(()))
    } else if starts_with(input, "insert") {
        if table.num_rows() >= TABLE_MAX_ROWS as u64 {
            return Err(DbError::TableFull);
        }
        let row = match parse_insert(input) {
            Ok(row) => row,
            Err(e) => {
                return Err(e);
            },
        };
        table.add_row(&row)
    } else {
        Err(DbError::StatementUnrecognized)
    }
}

} // verus!
