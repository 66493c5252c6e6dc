//! The sizes that fix the layout of a row, a page and the table.

use vstd::prelude::*;

verus! {

/// Largest user id, in bytes of UTF-8.
pub const USERID_SIZE: usize = 31;

/// Largest email address, in bytes of UTF-8.
pub const EMAIL_SIZE: usize = 254;

/// Bytes in front of the two text fields: the id and the two length bytes.
pub const HEADER_SIZE: usize = 6;

/// Bytes one row occupies in a page.
pub const ROW_SIZE: usize = 291;

/// Bytes in a page, the unit in which the file is read and written.
pub const PAGE_SIZE: usize = 4096;

/// Rows packed into one page; the bytes behind the last one stay unused.
pub const ROWS_PER_PAGE: usize = 14;

/// Page slots a table has.
pub const TABLE_MAX_PAGES: usize = 100;

/// Rows a table can hold.
pub const TABLE_MAX_ROWS: usize = 1400;

/// How the constants hang together: a row is its header and its two
/// texts, a page holds as many whole rows as fit, and the table as many rows
/// as its pages hold.
pub proof fn lemma_layout()
    ensures
        ROW_SIZE == HEADER_SIZE + USERID_SIZE + EMAIL_SIZE,
        ROWS_PER_PAGE == PAGE_SIZE / ROW_SIZE,
        TABLE_MAX_ROWS == ROWS_PER_PAGE * TABLE_MAX_PAGES,
{
}

} // verus!
