//! The file as a sequence of bytes, and what a table does to it: reads
//! bring pages in, the writes of a close bring rows out, and a table opened
//! on the file that a close left holds the rows that were there.
//!
//! The library never holds the file. This module states what becomes of a
//! file whose reads and writes are carried out as the table asks.

use crate::error::DbError;
use crate::layout::{PAGE_SIZE, ROWS_PER_PAGE, ROW_SIZE, TABLE_MAX_PAGES, TABLE_MAX_ROWS};
use crate::pager::{zeros, PageRead, Paged};
use crate::row::{decode, Record};
use crate::table::{
    lemma_append_keeps_rows, lemma_empty_table, lemma_fill_from_empty, lemma_opened_wf,
    lemma_slots_apart, offset_of, page_of, rows_in_file, TableView,
};
use vstd::prelude::*;

verus! {

/// The file after `write`, which is an offset and the bytes to put there.
/// Bytes between the old end of the file and the offset are zero.
pub open spec fn written(file: Seq<u8>, write: (int, Seq<u8>)) -> Seq<u8> {
    let end = write.0 + write.1.len();
    if write.1.len() == 0 {
        file
    } else {
        Seq::new(
            if end > file.len() {
                end as nat
            } else {
                file.len()
            },
            |x: int|
                if write.0 <= x < end {
                    write.1[x - write.0]
                } else if x < file.len() {
                    file[x]
                } else {
                    0u8
                },
        )
    }
}

/// The file after each of `writes`, in order.
pub open spec fn written_all(file: Seq<u8>, writes: Seq<(int, Seq<u8>)>) -> Seq<u8>
    decreases writes.len(),
{
    if writes.len() == 0 {
        file
    } else {
        written(written_all(file, writes.drop_last()), writes.last())
    }
}

/// The bytes that `read` brings from the file.
pub open spec fn read_back(file: Seq<u8>, read: PageRead) -> Seq<u8> {
    file.subrange(read.offset as int, read.offset + read.len)
}

/// The bytes of row `i` in the file.
pub open spec fn file_row(file: Seq<u8>, i: int) -> Seq<u8> {
    file.subrange(
        page_of(i) * PAGE_SIZE + offset_of(i),
        page_of(i) * PAGE_SIZE + offset_of(i) + ROW_SIZE,
    )
}

impl TableView {
    /// The table belongs to `file`: it was opened on a file of that
    /// length, holds the file's rows and perhaps more, within its capacity,
    /// and each row that the file does not hold is in a resident page.
    pub open spec fn backed_by(self, file: Seq<u8>) -> bool {
        &&& self.pager.file_length == file.len()
        &&& rows_in_file(file.len() as int) <= self.num_rows <= TABLE_MAX_ROWS
        &&& forall|i: int|
            rows_in_file(file.len() as int) <= i < self.num_rows ==> #[trigger] self.pager.resident(
                page_of(i),
            )
    }

    /// The bytes of row `i` as the table has them: in its page where that
    /// is resident, in the file where it is not.
    pub open spec fn stored_row(self, file: Seq<u8>, i: int) -> Seq<u8> {
        if self.pager.resident(page_of(i)) {
            self.row(i)
        } else {
            file_row(file, i)
        }
    }

    /// The records of the table, in memory or in the file, in order.
    pub open spec fn stored_records(self, file: Seq<u8>) -> Seq<Option<Record>> {
        Seq::new(self.num_rows as nat, |i: int| decode(self.stored_row(file, i)))
    }

    /// The table after the faults for `pages` were served from `file`, one
    /// after the other. A page that waits for no read is passed over.
    pub open spec fn served(self, file: Seq<u8>, pages: Seq<int>) -> TableView
        decreases pages.len(),
    {
        if pages.len() == 0 {
            self
        } else {
            let before = self.served(file, pages.drop_last());
            match before.pager.pending_read(pages.last()) {
                Some(read) => before.loaded(pages.last(), read_back(file, read)),
                None => before,
            }
        }
    }

    /// Bytes of page `p` that closing the table writes.
    pub open spec fn flush_size(self, p: int) -> int {
        if !self.pager.resident(p) {
            0
        } else if p < self.num_rows / (ROWS_PER_PAGE as int) {
            PAGE_SIZE as int
        } else if p == self.num_rows / (ROWS_PER_PAGE as int) {
            (self.num_rows % (ROWS_PER_PAGE as int)) * ROW_SIZE
        } else {
            0
        }
    }

    /// The last of the first `k` pages that closing the table writes, or
    /// -1 where it writes none of them.
    pub open spec fn last_flushed(self, k: int) -> int
        decreases k,
    {
        if k <= 0 {
            -1
        } else if self.flush_size(k - 1) > 0 {
            k - 1
        } else {
            self.last_flushed(k - 1)
        }
    }

    /// Where the writes for the first `k` pages end in the file.
    pub open spec fn flush_end(self, k: int) -> int {
        let last = self.last_flushed(k);
        if last < 0 {
            0
        } else {
            last * PAGE_SIZE + self.flush_size(last)
        }
    }

    /// Byte `x` of the file once the first `k` pages are flushed.
    pub open spec fn flushed_byte(self, file: Seq<u8>, k: int, x: int) -> u8 {
        let p = x / (PAGE_SIZE as int);
        if p < k && x % (PAGE_SIZE as int) < self.flush_size(p) {
            self.pager.pages[p][x % (PAGE_SIZE as int)]
        } else if x < file.len() {
            file[x]
        } else {
            0u8
        }
    }
}

/// The last page that is written is one that is written, and none behind
/// it is.
pub proof fn lemma_last_flushed(table: TableView, k: int)
    requires
        0 <= k,
    ensures
        -1 <= table.last_flushed(k) < k,
        table.last_flushed(k) >= 0 ==> table.flush_size(table.last_flushed(k)) > 0,
        forall|p: int| table.last_flushed(k) < p < k ==> table.flush_size(p) <= 0,
    decreases k,
{
    if k > 0 {
        lemma_last_flushed(table, k - 1);
    }
}

/// What the file holds once the first `k` pages are flushed: it reaches
/// as far as it did or as the writes do, and each byte is the one that was
/// written there, or the one it was.
pub proof fn lemma_flushed_file(table: TableView, file: Seq<u8>, k: int)
    requires
        table.wf(),
        0 <= k <= TABLE_MAX_PAGES,
    ensures
        written_all(file, table.writes_upto(k)).len() == if table.flush_end(k) > file.len() {
            table.flush_end(k)
        } else {
            file.len() as int
        },
        forall|x: int|
            0 <= x < written_all(file, table.writes_upto(k)).len() ==> written_all(
                file,
                table.writes_upto(k),
            )[x] == #[trigger] table.flushed_byte(file, k, x),
    decreases k,
{
    if k > 0 {
        lemma_flushed_file(table, file, k - 1);
        lemma_last_flushed(table, k - 1);
        lemma_last_flushed(table, k);
        let before = written_all(file, table.writes_upto(k - 1));
        let after = written_all(file, table.writes_upto(k));
        let p = k - 1;
        let size = table.flush_size(p);
        let _ = table.pager.pages[p];
        assert(0 <= size <= PAGE_SIZE);
        if size > 0 {
            let write = (p * PAGE_SIZE, table.pager.pages[p].subrange(0, size));
            assert(table.page_flush(p) == Some(write));
            assert(table.writes_upto(k).drop_last() =~= table.writes_upto(k - 1));
            assert(after == written(before, write));
            assert(table.flush_end(k - 1) <= p * PAGE_SIZE);
            assert forall|x: int| 0 <= x < after.len() implies after[x]
                == #[trigger] table.flushed_byte(file, k, x) by {
                if p * PAGE_SIZE <= x < p * PAGE_SIZE + size {
                    assert(x / (PAGE_SIZE as int) == p);
                    assert(x % (PAGE_SIZE as int) == x - p * PAGE_SIZE);
                } else if x < before.len() {
                    assert(before[x] == table.flushed_byte(file, k - 1, x));
                } else {
                    let q = x / (PAGE_SIZE as int);
                    if q < p && x % (PAGE_SIZE as int) < table.flush_size(q) {
                        assert(q <= table.last_flushed(k - 1));
                        lemma_flush_end_grows(table, q, k - 1);
                    }
                }
            }
        } else {
            assert(table.page_flush(p) is None);
            assert(after == before);
            assert forall|x: int| 0 <= x < after.len() implies after[x]
                == #[trigger] table.flushed_byte(file, k, x) by {
                assert(before[x] == table.flushed_byte(file, k - 1, x));
            }
        }
    }
}

/// The writes end behind each page that is written.
pub proof fn lemma_flush_end_grows(table: TableView, q: int, k: int)
    requires
        table.wf(),
        0 <= q < k <= TABLE_MAX_PAGES,
        table.flush_size(q) > 0,
    ensures
        q * PAGE_SIZE + table.flush_size(q) <= table.flush_end(k),
{
    lemma_last_flushed(table, k);
    let last = table.last_flushed(k);
    let _ = table.pager.pages[q];
    if q < last {
        assert(table.flush_size(q) <= PAGE_SIZE);
    }
}

/// A row that the file holds lies within the file.
pub proof fn lemma_row_in_file(length: int, i: int)
    requires
        0 <= i < rows_in_file(length),
        0 <= length,
    ensures
        page_of(i) * PAGE_SIZE + offset_of(i) + ROW_SIZE <= length,
        page_of(i) < (length + PAGE_SIZE - 1) / (PAGE_SIZE as int),
{
    let pages = length / (PAGE_SIZE as int);
    let rest = length % (PAGE_SIZE as int);
    assert(rows_in_file(length) == pages * 14 + rest / 291);
    if page_of(i) < pages {
        assert(offset_of(i) + ROW_SIZE <= PAGE_SIZE);
    } else {
        assert(page_of(i) == pages);
        assert(i % 14 < rest / 291);
    }
}

/// A table that was just opened belongs to its file, and its rows are the
/// file's.
pub proof fn lemma_open_backed(file: Seq<u8>)
    requires
        file.len() <= u64::MAX,
        rows_in_file(file.len() as int) <= TABLE_MAX_ROWS,
    ensures
        TableView::opened(file.len() as u64).wf(),
        TableView::opened(file.len() as u64).backed_by(file),
        forall|i: int| #[trigger]
            TableView::opened(file.len() as u64).stored_row(file, i) == file_row(file, i),
{
    lemma_opened_wf(file.len() as u64);
}

/// Serving a fault from the file changes no row: the table still belongs
/// to the file, and each row reads as it did.
pub proof fn lemma_load_keeps_rows(table: TableView, file: Seq<u8>, p: int)
    requires
        table.wf(),
        table.backed_by(file),
        table.pager.pending_read(p) is Some,
    ensures
        table.loaded(p, read_back(file, table.pager.pending_read(p).unwrap())).wf(),
        table.loaded(p, read_back(file, table.pager.pending_read(p).unwrap())).backed_by(file),
        forall|i: int|
            0 <= i < table.num_rows ==> #[trigger] table.loaded(
                p,
                read_back(file, table.pager.pending_read(p).unwrap()),
            ).stored_row(file, i) == table.stored_row(file, i),
{
    let read = table.pager.pending_read(p).unwrap();
    let bytes = read_back(file, read);
    let after = table.loaded(p, bytes);
    let page = bytes + zeros(PAGE_SIZE - bytes.len());
    assert(0 <= read.len <= PAGE_SIZE);
    assert(read.offset == p * PAGE_SIZE);
    assert(read.offset + read.len <= file.len());
    assert(bytes.len() == read.len);
    assert(after.pager.pages == table.pager.pages.update(p, page));
    assert forall|q: int|
        #![trigger after.pager.pages[q]]
        0 <= q < TABLE_MAX_PAGES && q * ROWS_PER_PAGE < after.num_rows implies after.pager.resident(
        q,
    ) || q < after.pager.pages_in_file() by {
        let _ = table.pager.pages[q];
    }
    assert forall|q: int| 0 <= q < after.pager.pages.len() implies (
    #[trigger] after.pager.pages[q]).len() == 0 || after.pager.pages[q].len() == PAGE_SIZE by {
        let _ = table.pager.pages[q];
    }
    assert forall|i: int|
        rows_in_file(file.len() as int) <= i < after.num_rows
        implies #[trigger] after.pager.resident(page_of(i)) by {
        assert(table.pager.resident(page_of(i)));
    }
    assert forall|i: int| 0 <= i < table.num_rows implies #[trigger] after.stored_row(file, i)
        == table.stored_row(file, i) by {
        if page_of(i) == p {
            if i >= rows_in_file(file.len() as int) {
                assert(table.pager.resident(page_of(i)));
            }
            lemma_row_in_file(file.len() as int, i);
            assert(after.row(i) =~= file_row(file, i));
        }
    }
}

/// An append to a table that belongs to a file: the table still belongs
/// to it, the rows in front read as they did, and the new row holds the
/// record.
pub proof fn lemma_append_backed(table: TableView, file: Seq<u8>, rec: Record)
    requires
        table.wf(),
        table.backed_by(file),
        table.accepts(),
        rec.fits(),
    ensures
        table.appended(rec).wf(),
        table.appended(rec).backed_by(file),
        forall|i: int|
            0 <= i < table.num_rows ==> #[trigger] table.appended(rec).stored_row(file, i)
                == table.stored_row(file, i),
        decode(table.appended(rec).stored_row(file, table.num_rows)) == Some(rec),
{
    let after = table.appended(rec);
    lemma_append_keeps_rows(table, rec);
    assert forall|i: int|
        rows_in_file(file.len() as int) <= i < after.num_rows
        implies #[trigger] after.pager.resident(page_of(i)) by {
        if i < table.num_rows {
            assert(table.pager.resident(page_of(i)));
        }
    }
    assert forall|i: int| 0 <= i < table.num_rows implies #[trigger] after.stored_row(file, i)
        == table.stored_row(file, i) by {
        assert(after.row(i) == table.row(i));
        if page_of(i) == page_of(table.num_rows) {
            let _ = table.pager.pages[page_of(i)];
            if !table.pager.resident(page_of(i)) {
                // The page is neither resident nor awaited, so the file does not reach it.
                assert(i >= rows_in_file(file.len() as int)) by {
                    if i < rows_in_file(file.len() as int) {
                        lemma_row_in_file(file.len() as int, i);
                    }
                }
                assert(table.pager.resident(page_of(i)));
            }
        } else {
            assert(after.pager.pages[page_of(i)] == table.pager.pages[page_of(i)]);
        }
    }
}

/// The file that the writes of a close leave holds as many rows as the
/// table held.
pub proof fn lemma_flushed_length(table: TableView, file: Seq<u8>)
    requires
        table.wf(),
        table.backed_by(file),
    ensures
        file.len() <= written_all(file, table.flush_writes()).len() <= u64::MAX,
        rows_in_file(written_all(file, table.flush_writes()).len() as int) == table.num_rows,
{
    let after = written_all(file, table.flush_writes());
    let k = TABLE_MAX_PAGES as int;
    let n = table.num_rows;
    let full = n / 14;
    let extra = n % 14;
    let length = file.len() as int;
    let file_pages = length / 4096;
    let file_rest = length % 4096;
    lemma_flushed_file(table, file, k);
    lemma_last_flushed(table, k);
    let last = table.last_flushed(k);
    assert(rows_in_file(length) == file_pages * 14 + file_rest / 291);
    if last >= 0 {
        let _ = table.pager.pages[last];
    }
    assert(table.flush_end(k) <= full * 4096 + extra * 291);
    if n > rows_in_file(length) {
        let p = page_of(n - 1);
        assert(table.pager.resident(p));
        let _ = table.pager.pages[p];
        assert(table.flush_size(p) > 0);
        lemma_flush_end_grows(table, p, k);
        assert(after.len() == full * 4096 + extra * 291);
    } else {
        if table.flush_end(k) > length {
            assert(file_rest / 291 == 14);
            assert(last == file_pages);
            assert(after.len() == (file_pages + 1) * 4096);
        } else {
            assert(after.len() == length);
        }
    }
}

/// In the file that the writes of a close leave, each row is the row the
/// table had, in memory or in the file.
pub proof fn lemma_flushed_row(table: TableView, file: Seq<u8>, i: int)
    requires
        table.wf(),
        table.backed_by(file),
        0 <= i < table.num_rows,
    ensures
        file_row(written_all(file, table.flush_writes()), i) == table.stored_row(file, i),
{
    let after = written_all(file, table.flush_writes());
    let k = TABLE_MAX_PAGES as int;
    let p = page_of(i);
    let start = p * PAGE_SIZE + offset_of(i);
    lemma_flushed_file(table, file, k);
    lemma_flushed_length(table, file);
    lemma_row_in_file(after.len() as int, i);
    lemma_slots_apart(i, i);
    let _ = table.pager.pages[p];
    if table.pager.resident(p) {
        assert(offset_of(i) + ROW_SIZE <= table.flush_size(p));
        assert forall|j: int| 0 <= j < ROW_SIZE implies file_row(after, i)[j] == table.row(
            i,
        )[j] by {
            let x = start + j;
            assert(x / 4096 == p);
            assert(x % 4096 == offset_of(i) + j);
            assert(after[x] == table.flushed_byte(file, k, x));
        }
        assert(file_row(after, i) =~= table.row(i));
    } else {
        assert(i < rows_in_file(file.len() as int)) by {
            if i >= rows_in_file(file.len() as int) {
                assert(table.pager.resident(page_of(i)));
            }
        }
        lemma_row_in_file(file.len() as int, i);
        assert forall|j: int| 0 <= j < ROW_SIZE implies file_row(after, i)[j] == file_row(
            file,
            i,
        )[j] by {
            let x = start + j;
            assert(x / 4096 == p);
            assert(after[x] == table.flushed_byte(file, k, x));
        }
        assert(file_row(after, i) =~= file_row(file, i));
    }
}

/// Close, then open again: the file that the writes of a close leave
/// holds as many rows as the table held, and each row in it is the row the
/// table had, in memory or in the file. A table opened on that file holds
/// the same records in the same order.
pub proof fn lemma_persistence(table: TableView, file: Seq<u8>)
    requires
        table.wf(),
        table.backed_by(file),
    ensures
        written_all(file, table.flush_writes()).len() <= u64::MAX,
        TableView::opened(written_all(file, table.flush_writes()).len() as u64).wf(),
        TableView::opened(written_all(file, table.flush_writes()).len() as u64).backed_by(
            written_all(file, table.flush_writes()),
        ),
        TableView::opened(written_all(file, table.flush_writes()).len() as u64).num_rows
            == table.num_rows,
        TableView::opened(
            written_all(file, table.flush_writes()).len() as u64,
        ).stored_records(written_all(file, table.flush_writes())) == table.stored_records(file),
{
    let after = written_all(file, table.flush_writes());
    let reopened = TableView::opened(after.len() as u64);
    lemma_flushed_length(table, file);
    lemma_open_backed(after);
    assert forall|i: int| 0 <= i < table.num_rows implies reopened.stored_records(after)[i]
        == table.stored_records(file)[i] by {
        lemma_flushed_row(table, file, i);
        assert(reopened.stored_row(after, i) == file_row(after, i));
    }
    assert(reopened.stored_records(after) =~= table.stored_records(file));
}

/// A scan that runs through gives the stored records: each row is in a
/// resident page and holds the record that the scan gives for it.
pub proof fn lemma_scan_gives_stored(table: TableView, file: Seq<u8>, records: Seq<Record>)
    requires
        table.wf(),
        table.scan() == Ok::<Paged<Seq<Record>>, DbError>(
            Paged::Ready(records),
        ),
    ensures
        records.len() == table.num_rows,
        forall|i: int|
            0 <= i < table.num_rows ==> #[trigger] table.stored_records(file)[i] == Some(
                records[i],
            ),
{
    lemma_scan_rows(table, table.num_rows, records);
    assert forall|i: int| 0 <= i < table.num_rows implies #[trigger] table.stored_records(file)[i]
        == Some(records[i]) by {
        let _ = table.pager.pages[page_of(i)];
        assert(table.record(i) == Some(records[i]));
    }
}

/// A scan of the first `k` rows that runs through found each of them
/// within the pages, waiting for no read, and holding its record.
pub proof fn lemma_scan_rows(table: TableView, k: int, records: Seq<Record>)
    requires
        0 <= k,
        table.scan_upto(k) == Ok::<Paged<Seq<Record>>, DbError>(
            Paged::Ready(records),
        ),
    ensures
        records.len() == k,
        forall|i: int|
            0 <= i < k ==> page_of(i) < TABLE_MAX_PAGES && table.pager.pending_read(page_of(i))
                is None && #[trigger] table.record(i) == Some(records[i]),
    decreases k,
{
    if k > 0 {
        match table.scan_upto(k - 1) {
            Ok(Paged::Ready(front)) => {
                lemma_scan_rows(table, k - 1, front);
                assert(records == front.push(table.record(k - 1).unwrap()));
            },
            _ => {},
        }
    }
}

/// The pages of a table, each once, in order.
pub open spec fn all_pages() -> Seq<int> {
    Seq::new(TABLE_MAX_PAGES as nat, |p: int| p)
}

/// Serving faults from the file changes no row, in whatever order the
/// pages come: the table still belongs to the file, holds the same records,
/// and none of the pages that were served waits for a read any more.
pub proof fn lemma_served_keeps_rows(table: TableView, file: Seq<u8>, pages: Seq<int>)
    requires
        table.wf(),
        table.backed_by(file),
    ensures
        table.served(file, pages).wf(),
        table.served(file, pages).backed_by(file),
        table.served(file, pages).num_rows == table.num_rows,
        table.served(file, pages).stored_records(file) == table.stored_records(file),
        forall|k: int|
            0 <= k < pages.len() ==> (#[trigger] table.served(file, pages).pager.pending_read(
                pages[k],
            )) is None,
    decreases pages.len(),
{
    if pages.len() > 0 {
        let front = pages.drop_last();
        let before = table.served(file, front);
        let after = table.served(file, pages);
        let p = pages.last();
        lemma_served_keeps_rows(table, file, front);
        if before.pager.pending_read(p) is Some {
            lemma_load_keeps_rows(before, file, p);
            assert(after.pager.pages == before.pager.pages.update(p, after.pager.pages[p]));
        }
        assert(after.stored_records(file) =~= before.stored_records(file));
        assert forall|k: int| 0 <= k < pages.len() implies (#[trigger] after.pager.pending_read(
            pages[k],
        )) is None by {
            if k < front.len() {
                assert(front[k] == pages[k]);
                assert(before.pager.pending_read(front[k]) is None);
            }
        }
    }
}

/// A scan runs through where each row is within the pages, waits for no
/// read and holds a record; it gives those records in order.
pub proof fn lemma_scan_runs(table: TableView, k: int)
    requires
        0 <= k,
        forall|i: int|
            0 <= i < k ==> page_of(i) < TABLE_MAX_PAGES && table.pager.pending_read(page_of(i))
                is None && (#[trigger] table.record(i)) is Some,
    ensures
        table.scan_upto(k) == Ok::<Paged<Seq<Record>>, DbError>(
            Paged::Ready(Seq::new(k as nat, |i: int| table.record(i).unwrap())),
        ),
    decreases k,
{
    if k > 0 {
        lemma_scan_runs(table, k - 1);
        let front = Seq::new((k - 1) as nat, |i: int| table.record(i).unwrap());
        let all = Seq::new(k as nat, |i: int| table.record(i).unwrap());
        assert(table.record(k - 1) is Some);
        assert(front.push(table.record(k - 1).unwrap()) =~= all);
    } else {
        assert(Seq::new(0nat, |i: int| table.record(i).unwrap()) =~= Seq::<Record>::empty());
    }
}

/// Close, open again, scan: whatever pages are read on the way, a scan
/// of the reopened table that runs through gives the records that the table
/// held when it was closed, in order.
pub proof fn lemma_reopen_then_scan(
    table: TableView,
    file: Seq<u8>,
    pages: Seq<int>,
    records: Seq<Record>,
)
    requires
        table.wf(),
        table.backed_by(file),
        TableView::opened(written_all(file, table.flush_writes()).len() as u64).served(
            written_all(file, table.flush_writes()),
            pages,
        ).scan() == Ok::<Paged<Seq<Record>>, DbError>(
            Paged::Ready(records),
        ),
    ensures
        records.len() == table.num_rows,
        forall|i: int|
            0 <= i < table.num_rows ==> #[trigger] table.stored_records(file)[i] == Some(
                records[i],
            ),
{
    let after = written_all(file, table.flush_writes());
    let reopened = TableView::opened(after.len() as u64);
    lemma_persistence(table, file);
    lemma_served_keeps_rows(reopened, after, pages);
    lemma_scan_gives_stored(reopened.served(after, pages), after, records);
}

/// Close, open again, read every page, scan: where each row of the table
/// held a record, the scan of the reopened table runs through and gives
/// those records, in order.
pub proof fn lemma_reopen_scan_runs(table: TableView, file: Seq<u8>, records: Seq<Record>)
    requires
        table.wf(),
        table.backed_by(file),
        records.len() == table.num_rows,
        forall|i: int|
            0 <= i < table.num_rows ==> #[trigger] table.stored_records(file)[i] == Some(
                records[i],
            ),
    ensures
        TableView::opened(written_all(file, table.flush_writes()).len() as u64).served(
            written_all(file, table.flush_writes()),
            all_pages(),
        ).scan() == Ok::<Paged<Seq<Record>>, DbError>(
            Paged::Ready(records),
        ),
{
    let after = written_all(file, table.flush_writes());
    let reopened = TableView::opened(after.len() as u64);
    let read = reopened.served(after, all_pages());
    let n = table.num_rows;
    lemma_persistence(table, file);
    lemma_served_keeps_rows(reopened, after, all_pages());
    assert forall|i: int| 0 <= i < n implies page_of(i) < TABLE_MAX_PAGES
        && read.pager.pending_read(page_of(i)) is None && (#[trigger] read.record(i)) == Some(
        records[i],
    ) by {
        let p = page_of(i);
        assert(all_pages()[p] == p);
        assert(read.pager.pending_read(all_pages()[p]) is None);
        let _ = read.pager.pages[p];
        assert(read.pager.resident(p)) by {
            lemma_row_in_file(after.len() as int, i);
        }
        assert(read.stored_records(after)[i] == table.stored_records(file)[i]);
    }
    lemma_scan_runs(read, n);
    assert(Seq::new(n as nat, |i: int| read.record(i).unwrap()) =~= records);
}

/// Appends keep a table with its file.
pub proof fn lemma_appends_backed(table: TableView, file: Seq<u8>, recs: Seq<Record>)
    requires
        table.wf(),
        table.backed_by(file),
        table.all_loaded(),
        table.num_rows + recs.len() <= TABLE_MAX_ROWS,
        forall|i: int| 0 <= i < recs.len() ==> (#[trigger] recs[i]).fits(),
    ensures
        table.appended_all(recs).wf(),
        table.appended_all(recs).backed_by(file),
        table.appended_all(recs).all_loaded(),
        table.appended_all(recs).num_rows == table.num_rows + recs.len(),
    decreases recs.len(),
{
    if recs.len() > 0 {
        let front = recs.drop_last();
        let middle = table.appended_all(front);
        lemma_appends_backed(table, file, front);
        assert(middle.pager.pending_read(page_of(middle.num_rows)) is None);
        lemma_append_backed(middle, file, recs.last());
        lemma_append_keeps_rows(middle, recs.last());
        let after = middle.appended(recs.last());
        assert forall|p: int| 0 <= p < TABLE_MAX_PAGES implies (#[trigger] after.pager.pending_read(
            p,
        )) is None by {
            assert(middle.pager.pending_read(p) is None);
        }
    }
}

/// Fill, close, open again, scan: records appended to a table over an
/// empty file, as many as it has room for, are what a scan gives after the
/// table was closed and opened again on the file that the close left, in
/// the order of the appends.
pub proof fn lemma_fill_close_reopen(recs: Seq<Record>)
    requires
        recs.len() <= TABLE_MAX_ROWS,
        forall|i: int| 0 <= i < recs.len() ==> (#[trigger] recs[i]).fits(),
    ensures
        TableView::opened(
            written_all(
                Seq::empty(),
                TableView::opened(0).appended_all(recs).flush_writes(),
            ).len() as u64,
        ).served(
            written_all(Seq::empty(), TableView::opened(0).appended_all(recs).flush_writes()),
            all_pages(),
        ).scan() == Ok::<Paged<Seq<Record>>, DbError>(
            Paged::Ready(recs),
        ),
{
    let empty = Seq::<u8>::empty();
    let start = TableView::opened(0);
    let filled = start.appended_all(recs);
    lemma_empty_table();
    lemma_open_backed(empty);
    lemma_fill_from_empty(recs);
    lemma_appends_backed(start, empty, recs);
    lemma_scan_gives_stored(filled, empty, recs);
    lemma_reopen_scan_runs(filled, empty, recs);
}

} // verus!
