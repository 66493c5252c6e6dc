//! One table of fixed-size rows, kept in the pages of one file.
//!
//! The table holds its rows in page buffers and decides what is read from
//! the file and what is written to it; it never touches the file itself.
//! An operation that needs a page of the file hands back a fault, the read
//! to perform; the caller serves it with `load` and asks again. Closing the
//! table gives the writes that bring its rows to the file.
//!
//! `row` is the layout of a record in its slot, `pager` the page buffers,
//! `table` the rows on top of them, `command` the statements that a user
//! types, and `storage` what a close and a reopen do to the file.

pub mod command;
pub mod error;
pub mod layout;
pub mod pager;
pub mod row;
pub mod std_text;
pub mod storage;
pub mod table;
pub mod text;

pub use crate::command::meta_command;
pub use crate::command::statement_command;
pub use crate::error::DbError;
pub use crate::pager::PageRead;
pub use crate::pager::PageWrite;
pub use crate::pager::Paged;
pub use crate::pager::Pager;
pub use crate::row::Record;
pub use crate::row::Row;
pub use crate::table::Table;
pub use crate::table::TableView;
