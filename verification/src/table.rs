//! The table: rows numbered from zero, each in its slot of its page.

use crate::error::DbError;
use crate::layout::{PAGE_SIZE, ROWS_PER_PAGE, ROW_SIZE, TABLE_MAX_PAGES, TABLE_MAX_ROWS};
use crate::pager::{PageWrite, Paged, Pager, PagerView};
use crate::row::{decode, lemma_round_trip, Record, Row};
use vstd::prelude::*;

verus! {

/// The page that holds row `i`.
pub open spec fn page_of(i: int) -> int {
    i / (ROWS_PER_PAGE as int)
}

/// The offset of row `i` in its page.
pub open spec fn offset_of(i: int) -> int {
    (i % (ROWS_PER_PAGE as int)) * ROW_SIZE
}

/// The bytes of row `i` in `page`.
pub open spec fn slot(page: Seq<u8>, i: int) -> Seq<u8> {
    page.subrange(offset_of(i), offset_of(i) + ROW_SIZE)
}

/// `page` with `bytes` in the place of row `i`.
pub open spec fn with_slot(page: Seq<u8>, i: int, bytes: Seq<u8>) -> Seq<u8> {
    page.subrange(0, offset_of(i)) + bytes + page.subrange(
        offset_of(i) + ROW_SIZE,
        page.len() as int,
    )
}

/// Rows that a file of `file_length` bytes holds: a page's worth for each
/// whole page, and of a short last page the rows that are there in full.
pub open spec fn rows_in_file(file_length: int) -> int {
    (file_length / (PAGE_SIZE as int)) * ROWS_PER_PAGE + (file_length % (PAGE_SIZE as int)) / (
    ROW_SIZE as int)
}

/// The views of the rows of a scan.
pub open spec fn records_of(rows: Seq<Row>) -> Seq<Record> {
    rows.map_values(|row: Row| row@)
}

/// The views of the writes of a flush.
pub open spec fn writes_of(writes: Seq<PageWrite>) -> Seq<(int, Seq<u8>)> {
    writes.map_values(|write: PageWrite| write@)
}

/// The table as a value: its pager and the number of its rows.
pub struct TableView {
    pub pager: PagerView,
    pub num_rows: int,
}

impl TableView {
    /// The pager is well formed, and each page that holds a row is
    /// resident or in the file.
    pub open spec fn wf(self) -> bool {
        &&& self.pager.wf()
        &&& 0 <= self.num_rows <= u64::MAX
        &&& forall|p: int|
            #![trigger self.pager.pages[p]]
            0 <= p < TABLE_MAX_PAGES && p * ROWS_PER_PAGE < self.num_rows ==> self.pager.resident(
                p,
            ) || p < self.pager.pages_in_file()
    }

    /// The table that opening a file of `file_length` bytes gives.
    pub open spec fn opened(file_length: u64) -> TableView {
        TableView {
            pager: PagerView::opened(file_length),
            num_rows: rows_in_file(file_length as int),
        }
    }

    /// The bytes of row `i`, where its page is resident.
    pub open spec fn row(self, i: int) -> Seq<u8> {
        slot(self.pager.pages[page_of(i)], i)
    }

    /// The record in row `i`, where its page is resident and the bytes
    /// hold one.
    pub open spec fn record(self, i: int) -> Option<Record> {
        decode(self.row(i))
    }

    /// The table after the read for page `p` brought `bytes`.
    pub open spec fn loaded(self, p: int, bytes: Seq<u8>) -> TableView {
        TableView { pager: self.pager.loaded(p, bytes), num_rows: self.num_rows }
    }

    /// The table with `bytes` in the place of row `i`, its page made of
    /// zeros first where it was not resident.
    pub open spec fn with_row(self, i: int, bytes: Seq<u8>) -> TableView {
        TableView {
            pager: self.pager.with_page(
                page_of(i),
                with_slot(self.pager.page_or_zeros(page_of(i)), i, bytes),
            ),
            num_rows: self.num_rows,
        }
    }

    /// The bytes that row `i` holds once `rec` is written to it: the
    /// record, then what the slot held behind it.
    pub open spec fn row_written(self, i: int, rec: Record) -> Seq<u8> {
        rec.encoded() + slot(self.pager.page_or_zeros(page_of(i)), i).subrange(
            rec.encoded().len() as int,
            ROW_SIZE as int,
        )
    }

    /// The table after `rec` was appended.
    pub open spec fn appended(self, rec: Record) -> TableView {
        TableView {
            pager: self.with_row(self.num_rows, self.row_written(self.num_rows, rec)).pager,
            num_rows: self.num_rows + 1,
        }
    }

    /// The table after each of `recs` was appended, in order.
    pub open spec fn appended_all(self, recs: Seq<Record>) -> TableView
        decreases recs.len(),
    {
        if recs.len() == 0 {
            self
        } else {
            self.appended_all(recs.drop_last()).appended(recs.last())
        }
    }

    /// No page waits for a read: each is resident or lies behind the end
    /// of the file.
    pub open spec fn all_loaded(self) -> bool {
        forall|p: int| 0 <= p < TABLE_MAX_PAGES ==> (#[trigger] self.pager.pending_read(p)) is None
    }

    /// An append is carried out: there is room, and the page of the new
    /// row waits for no read.
    pub open spec fn accepts(self) -> bool {
        &&& self.num_rows < TABLE_MAX_ROWS
        &&& self.pager.pending_read(page_of(self.num_rows)) is None
    }

    /// What scanning the first `k` rows gives: the records in order, or
    /// what stopped the scan at the first row that could not be read, which
    /// is a fault for a page not yet read, `TableFull` for a row behind
    /// the last page, and `DecodeError` for bytes that hold no record.
    pub open spec fn scan_upto(self, k: int) -> Result<Paged<Seq<Record>>, DbError>
        decreases k,
    {
        if k <= 0 {
            Ok(Paged::Ready(Seq::empty()))
        } else {
            match self.scan_upto(k - 1) {
                Ok(Paged::Ready(records)) => {
                    if page_of(k - 1) >= TABLE_MAX_PAGES {
                        Err(DbError::TableFull)
                    } else {
                        match self.pager.pending_read(page_of(k - 1)) {
                            Some(read) => Ok(Paged::Fault(read)),
                            None => match self.record(k - 1) {
                                Some(rec) => Ok(Paged::Ready(records.push(rec))),
                                None => Err(DbError::DecodeError),
                            },
                        }
                    }
                },
                stopped => stopped,
            }
        }
    }

    /// What scanning the table gives.
    pub open spec fn scan(self) -> Result<Paged<Seq<Record>>, DbError> {
        self.scan_upto(self.num_rows)
    }

    /// What closing the table writes for page `p`: all of a page that is
    /// filled, the rows of the page behind the filled ones, and nothing
    /// of a page that is not resident or holds no row.
    pub open spec fn page_flush(self, p: int) -> Option<(int, Seq<u8>)> {
        let full_pages = self.num_rows / (ROWS_PER_PAGE as int);
        let additional_rows = self.num_rows % (ROWS_PER_PAGE as int);
        if p < full_pages {
            self.pager.flushed(p, PAGE_SIZE as int)
        } else if p == full_pages && additional_rows > 0 {
            self.pager.flushed(p, additional_rows * ROW_SIZE)
        } else {
            None
        }
    }

    /// What closing the table writes for the first `k` pages, in order.
    pub open spec fn writes_upto(self, k: int) -> Seq<(int, Seq<u8>)>
        decreases k,
    {
        if k <= 0 {
            Seq::empty()
        } else {
            match self.page_flush(k - 1) {
                Some(write) => self.writes_upto(k - 1).push(write),
                None => self.writes_upto(k - 1),
            }
        }
    }

    /// What closing the table writes.
    pub open spec fn flush_writes(self) -> Seq<(int, Seq<u8>)> {
        self.writes_upto(TABLE_MAX_PAGES as int)
    }
}

/// A table that was just opened is well formed: the pages that hold its
/// rows are all in the file.
pub proof fn lemma_opened_wf(file_length: u64)
    ensures
        TableView::opened(file_length).wf(),
{
    let table = TableView::opened(file_length);
    let pages = file_length as int / (PAGE_SIZE as int);
    let rest = file_length as int % (PAGE_SIZE as int);
    assert(table.num_rows == pages * 14 + rest / 291);
    assert(rest > 0 ==> table.pager.pages_in_file() == pages + 1);
    assert(rest == 0 ==> table.pager.pages_in_file() == pages);
    assert forall|p: int|
        #![trigger table.pager.pages[p]]
        0 <= p < TABLE_MAX_PAGES && p * ROWS_PER_PAGE < table.num_rows implies table.pager.resident(
        p,
    ) || p < table.pager.pages_in_file() by {
        if rest / 291 == 0 {
            assert(p < pages);
        } else {
            assert(p <= pages);
        }
    }
}

/// The rows of one file, held in pages that are read when first touched
/// and written back when the table is closed.
pub struct Table {
    pager: Pager,
    num_rows: u64,
}

impl View for Table {
    type V = TableView;

    closed spec fn view(&self) -> TableView {
        TableView { pager: self.pager@, num_rows: self.num_rows as int }
    }
}

impl Table {
    /// The invariant of a table.
    pub open spec fn wf(&self) -> bool {
        self@.wf()
    }

    /// Opens the table over a file of `file_length` bytes. Nothing is read
    /// yet: the number of rows follows from the length alone.
    pub fn db_open(file_length: u64) -> (table: Table)
        ensures
            table.wf(),
            table@ == TableView::opened(file_length),
    {
        let pager = Pager::open(file_length);
        let pages: u64 = file_length / PAGE_SIZE as u64;
        assert(pages * PAGE_SIZE == file_length - file_length % (PAGE_SIZE as u64));
        assert(pages * ROWS_PER_PAGE <= u64::MAX / 256);
        let additional: u64 = (file_length - pages * PAGE_SIZE as u64) / ROW_SIZE as u64;
        let num_rows: u64 = additional + pages * ROWS_PER_PAGE as u64;
        proof {
            lemma_opened_wf(file_length);
        }
        Table { pager, num_rows }
    }

    /// The number of rows.
    pub fn num_rows(&self) -> (n: u64)
        ensures
            n == self@.num_rows,
    {
        self.num_rows
    }

    /// The length the file had when the table was opened.
    pub fn file_length(&self) -> (n: u64)
        ensures
            n == self@.pager.file_length,
    {
        self.pager.file_length()
    }

    /// Completes the read for page `page_num` with the bytes that were
    /// read. Bytes that answer no pending read are dropped, and the result
    /// says so.
    pub fn load(&mut self, page_num: usize, bytes: &[u8]) -> (done: bool)
        requires
            old(self).wf(),
        ensures
            final(self).wf(),
            final(self)@ == old(self)@.loaded(page_num as int, bytes@),
            done == (old(self)@.pager.pending_read(page_num as int) matches Some(read) && read.len
                == bytes@.len()),
    {
        let done = self.pager.load(page_num, bytes);
        proof {
            assert forall|p: int|
                #![trigger self@.pager.pages[p]]
                0 <= p < TABLE_MAX_PAGES && p * ROWS_PER_PAGE < self@.num_rows
                    implies self@.pager.resident(p) || p < self@.pager.pages_in_file() by {
                let _ = old(self)@.pager.pages[p];
            }
        }
        done
    }

    /// The slot of row `row_num`, to read and to write in place: the one
    /// place where a row number becomes a page and an offset. A row behind
    /// the last page is refused with `TableFull`; a page that has to be read
    /// first is asked for with a fault.
    pub fn get_row(&mut self, row_num: u64) -> (r: Result<Paged<&mut [u8]>, DbError>)
        requires
            old(self).wf(),
        ensures
            page_of(row_num as int) >= TABLE_MAX_PAGES ==> (r matches Err(DbError::TableFull)
                && final(self)@ == old(self)@),
            page_of(row_num as int) < TABLE_MAX_PAGES ==> match old(self)@.pager.pending_read(
                page_of(row_num as int),
            ) {
                Some(read) => {
                    &&& r matches Ok(Paged::Fault(fault)) && fault == read
                    &&& final(self)@ == old(self)@
                },
                None => {
                    &&& r matches Ok(Paged::Ready(data)) && data@ == slot(
                        old(self)@.pager.page_or_zeros(page_of(row_num as int)),
                        row_num as int,
                    ) && final(self)@.num_rows == old(self)@.num_rows
                        && final(self)@.pager.file_length == old(self)@.pager.file_length
                        && final(self)@.pager.pages =~~= old(self)@.with_row(
                        row_num as int,
                        final(data)@,
                    ).pager.pages && (final(data)@.len() == ROW_SIZE ==> final(self).wf())
                },
            },
    {
        let page_num: u64 = row_num / ROWS_PER_PAGE as u64;
        if page_num >= TABLE_MAX_PAGES as u64 {
            return Err(DbError::TableFull);
        }
        let row_offset: usize = (row_num % ROWS_PER_PAGE as u64) as usize;
        let byte_offset: usize = row_offset * ROW_SIZE;
        match self.pager.get(page_num as usize) {
            Paged::Fault(read) => Ok(Paged::Fault(read)),
            Paged::Ready(page) => {
                let (_, rest) = page.split_at_mut(byte_offset);
                let (data, _) = rest.split_at_mut(ROW_SIZE);
                Ok(Paged::Ready(data))
            },
        }
    }

    /// Appends `row` behind the last row. A table that holds all the rows
    /// it can is left as it is and refuses with `TableFull`.
    pub fn add_row(&mut self, row: &Row) -> (r: Result<Paged<()>, DbError>)
        requires
            old(self).wf(),
            row@.fits(),
        ensures
            final(self).wf(),
            old(self)@.num_rows >= TABLE_MAX_ROWS ==> (r matches Err(DbError::TableFull)
                && final(self)@ == old(self)@),
            old(self)@.num_rows < TABLE_MAX_ROWS ==> (old(self)@.pager.pending_read(
                page_of(old(self)@.num_rows),
            ) matches Some(read) ==> r matches Ok(Paged::Fault(fault)) && fault == read
                && final(self)@ == old(self)@),
            old(self)@.accepts() ==> (r matches Ok(Paged::Ready(_)) && final(self)@
                == old(self)@.appended(row@)),
    {
        let num_rows = self.num_rows;
        match self.get_row(num_rows) {
            Err(e) => {
                return Err(e);
            },
            Ok(Paged::Fault(read)) => {
                return Ok(Paged::Fault(read));
            },
            Ok(Paged::Ready(row_data)) => {
                row.serialize(row_data);
            },
        }
        self.num_rows += 1;
        Ok(Paged::Ready(()))
    }

    /// The rows in order. The scan stops at the first row that cannot be
    /// read: with a fault where its page has to be read first, with
    /// `TableFull` where it lies behind the last page, with `DecodeError`
    /// where its bytes hold no record.
    pub fn scan(&mut self) -> (r: Result<Paged<Vec<Row>>, DbError>)
        requires
            old(self).wf(),
        ensures
            final(self).wf(),
            final(self)@ == old(self)@,
            match old(self)@.scan() {
                Ok(Paged::Ready(records)) => r matches Ok(Paged::Ready(rows)) && records_of(rows@)
                    == records,
                Ok(Paged::Fault(read)) => r matches Ok(Paged::Fault(fault)) && fault == read,
                Err(stop) => r matches Err(e) && e == stop,
            },
    {
        let mut rows: Vec<Row> = Vec::new();
        let mut i: u64 = 0;
        assert(records_of(rows@) =~= Seq::empty());
        while i < self.num_rows
            invariant
                self.wf(),
                self@ == old(self)@,
                i <= self.num_rows,
                self@.scan_upto(i as int) == Ok::<Paged<Seq<Record>>, DbError>(
                    Paged::Ready(records_of(rows@)),
                ),
            decreases self.num_rows - i,
        {
            proof {
                lemma_scan_stops(self@, i + 1, self@.num_rows);
                if page_of(i as int) < TABLE_MAX_PAGES {
                    let _ = self@.pager.pages[page_of(i as int)];
                }
            }
            let ghost before = self@;
            match self.get_row(i) {
                Err(e) => {
                    return Err(e);
                },
                Ok(Paged::Fault(read)) => {
                    return Ok(Paged::Fault(read));
                },
                Ok(Paged::Ready(row_data)) => {
                    assert(row_data@ == before.row(i as int));
                    match Row::deserialize(row_data) {
                        Some(row) => {
                            proof {
                                assert(records_of(rows@.push(row)) =~= records_of(rows@).push(
                                    row@,
                                ));
                            }
                            rows.push(row);
                        },
                        None => {
                            assert(self@.pager.pages =~~= before.pager.pages);
                            return Err(DbError::DecodeError);
                        },
                    }
                },
            }
            assert(self@.pager.pages =~~= before.pager.pages);
            i += 1;
        }
        Ok(Paged::Ready(rows))
    }

    /// Closes the table: the writes that bring its rows to the file, in
    /// the order of the pages. A page that is filled is written whole, the
    /// page behind the filled ones up to its last row, and a page that was
    /// never resident not at all.
    pub fn close(self) -> (writes: Vec<PageWrite>)
        requires
            self.wf(),
        ensures
            writes_of(writes@) == self@.flush_writes(),
    {
        let mut writes: Vec<PageWrite> = Vec::new();
        let full_pages: u64 = self.num_rows / ROWS_PER_PAGE as u64;
        let additional_rows: usize = (self.num_rows % ROWS_PER_PAGE as u64) as usize;
        let mut i: usize = 0;
        assert(writes_of(writes@) =~= self@.writes_upto(0));
        while i < TABLE_MAX_PAGES && (i as u64) < full_pages
            invariant
                self.wf(),
                i <= TABLE_MAX_PAGES,
                i <= full_pages == self@.num_rows / (ROWS_PER_PAGE as int),
                writes_of(writes@) == self@.writes_upto(i as int),
            decreases TABLE_MAX_PAGES - i,
        {
            match self.pager.flush(i, PAGE_SIZE) {
                Some(write) => {
                    proof {
                        assert(writes_of(writes@.push(write)) =~= writes_of(writes@).push(write@));
                    }
                    writes.push(write);
                },
                None => {},
            }
            i += 1;
        }
        if additional_rows > 0 && i < TABLE_MAX_PAGES {
            match self.pager.flush(i, additional_rows * ROW_SIZE) {
                Some(write) => {
                    proof {
                        assert(writes_of(writes@.push(write)) =~= writes_of(writes@).push(write@));
                    }
                    writes.push(write);
                },
                None => {},
            }
            i += 1;
        }
        proof {
            if i < TABLE_MAX_PAGES {
                lemma_flush_ends(self@, i as int, TABLE_MAX_PAGES as int);
            }
        }
        writes
    }
}

/// Once a scan has stopped it stays stopped: rows behind the one that
/// stopped it do not change what it gives.
pub proof fn lemma_scan_stops(table: TableView, k: int, m: int)
    requires
        k <= m,
    ensures
        !(table.scan_upto(k) matches Ok(Paged::Ready(_))) ==> table.scan_upto(m)
            == table.scan_upto(k),
    decreases m - k,
{
    if k < m {
        lemma_scan_stops(table, k, m - 1);
    }
}

/// Behind the last page that holds a row nothing is written.
pub proof fn lemma_flush_ends(table: TableView, k: int, m: int)
    requires
        0 <= k <= m,
        k * ROWS_PER_PAGE >= table.num_rows,
        table.num_rows >= 0,
    ensures
        table.writes_upto(m) == table.writes_upto(k),
    decreases m - k,
{
    if k < m {
        lemma_flush_ends(table, k, m - 1);
        assert(table.page_flush(m - 1) is None);
    }
}

/// A slot lies within its page, and two rows of a page share no byte.
pub proof fn lemma_slots_apart(i: int, j: int)
    requires
        0 <= i,
        0 <= j,
    ensures
        0 <= offset_of(i),
        offset_of(i) + ROW_SIZE <= PAGE_SIZE,
        i % (ROWS_PER_PAGE as int) != j % (ROWS_PER_PAGE as int) ==> offset_of(i) + ROW_SIZE
            <= offset_of(j) || offset_of(j) + ROW_SIZE <= offset_of(i),
{
}

/// Writing a slot changes that slot and no other.
pub proof fn lemma_with_slot(page: Seq<u8>, i: int, bytes: Seq<u8>)
    requires
        page.len() == PAGE_SIZE,
        bytes.len() == ROW_SIZE,
        0 <= i,
    ensures
        with_slot(page, i, bytes).len() == PAGE_SIZE,
        slot(with_slot(page, i, bytes), i) == bytes,
        forall|j: int|
            0 <= j && j % (ROWS_PER_PAGE as int) != i % (ROWS_PER_PAGE as int) ==> #[trigger] slot(
                with_slot(page, i, bytes),
                j,
            ) == slot(page, j),
{
    lemma_slots_apart(i, i);
    let after = with_slot(page, i, bytes);
    assert(slot(after, i) =~= bytes);
    assert forall|j: int|
        0 <= j && j % (ROWS_PER_PAGE as int) != i % (ROWS_PER_PAGE as int) implies #[trigger] slot(
        after,
        j,
    ) == slot(page, j) by {
        lemma_slots_apart(i, j);
        lemma_slots_apart(j, i);
        assert(slot(after, j) =~= slot(page, j));
    }
}

/// An append leaves the rows in front of the new one as they were, and the
/// new row holds the record.
pub proof fn lemma_append_keeps_rows(table: TableView, rec: Record)
    requires
        table.wf(),
        table.accepts(),
        rec.fits(),
    ensures
        table.appended(rec).wf(),
        table.appended(rec).num_rows == table.num_rows + 1,
        table.appended(rec).pager.file_length == table.pager.file_length,
        table.appended(rec).record(table.num_rows) == Some(rec),
        table.appended(rec).pager.resident(page_of(table.num_rows)),
        forall|p: int|
            0 <= p < TABLE_MAX_PAGES && table.pager.resident(p) ==> table.appended(
                rec,
            ).pager.resident(p),
        forall|p: int|
            0 <= p < TABLE_MAX_PAGES && p != page_of(table.num_rows) ==> #[trigger] table.appended(
                rec,
            ).pager.pages[p] == table.pager.pages[p],
        forall|i: int|
            0 <= i < table.num_rows ==> #[trigger] table.appended(rec).row(i) == table.row(i),
        forall|i: int|
            0 <= i < table.num_rows ==> #[trigger] table.appended(rec).pager.pending_read(
                page_of(i),
            ) == table.pager.pending_read(page_of(i)),
{
    let n = table.num_rows;
    let p = page_of(n);
    let after = table.appended(rec);
    let page = table.pager.page_or_zeros(p);
    let written = table.row_written(n, rec);
    let _ = table.pager.pages[p];
    lemma_slots_apart(n, n);
    assert(rec.encoded().len() <= ROW_SIZE);
    assert(written.len() == ROW_SIZE);
    lemma_with_slot(page, n, written);
    assert(after.pager.pages == table.pager.pages.update(p, with_slot(page, n, written)));
    lemma_round_trip(
        rec,
        slot(page, n).subrange(rec.encoded().len() as int, ROW_SIZE as int),
    );
    assert forall|q: int|
        #![trigger after.pager.pages[q]]
        0 <= q < TABLE_MAX_PAGES && q * ROWS_PER_PAGE < after.num_rows implies after.pager.resident(
        q,
    ) || q < after.pager.pages_in_file() by {
        let _ = table.pager.pages[q];
    }
    assert forall|i: int| 0 <= i < n implies #[trigger] after.row(i) == table.row(i) by {
        if page_of(i) == p {
            assert(table.pager.resident(p));
            assert(i % (ROWS_PER_PAGE as int) != n % (ROWS_PER_PAGE as int));
            assert(slot(with_slot(page, n, written), i) == slot(page, i));
        }
    }
    assert forall|i: int| 0 <= i < n implies #[trigger] after.pager.pending_read(page_of(i))
        == table.pager.pending_read(page_of(i)) by {
        if page_of(i) == p {
            assert(table.pager.resident(p));
        }
    }
}

/// Rows that read alike scan alike.
pub proof fn lemma_scan_alike(table: TableView, other: TableView, k: int)
    requires
        forall|i: int|
            0 <= i < k && page_of(i) < TABLE_MAX_PAGES ==> table.pager.pending_read(page_of(i))
                == other.pager.pending_read(page_of(i)) && #[trigger] table.record(i)
                == other.record(i),
    ensures
        table.scan_upto(k) == other.scan_upto(k),
    decreases k,
{
    if k > 0 {
        lemma_scan_alike(table, other, k - 1);
        if page_of(k - 1) < TABLE_MAX_PAGES {
            assert(table.record(k - 1) == other.record(k - 1));
        }
    }
}

/// A scan that has come through the rows in front of row `k` takes that
/// row too, where its page is there and it holds a record.
pub proof fn lemma_scan_step(table: TableView, k: int, before: Seq<Record>, rec: Record)
    requires
        0 <= k,
        table.scan_upto(k) == Ok::<Paged<Seq<Record>>, DbError>(Paged::Ready(before)),
        page_of(k) < TABLE_MAX_PAGES,
        table.pager.pending_read(page_of(k)) is None,
        table.record(k) == Some(rec),
    ensures
        table.scan_upto(k + 1) == Ok::<Paged<Seq<Record>>, DbError>(
            Paged::Ready(before.push(rec)),
        ),
{
}

/// Append, then scan: the scan gives what it gave before, and the new
/// record behind it.
pub proof fn lemma_append_then_scan(table: TableView, before: Seq<Record>, rec: Record)
    requires
        table.wf(),
        table.accepts(),
        rec.fits(),
        table.scan() == Ok::<Paged<Seq<Record>>, DbError>(Paged::Ready(before)),
    ensures
        table.appended(rec).scan() == Ok::<Paged<Seq<Record>>, DbError>(
            Paged::Ready(before.push(rec)),
        ),
{
    let n = table.num_rows;
    let after = table.appended(rec);
    lemma_append_keeps_rows(table, rec);
    assert forall|i: int|
        0 <= i < n && page_of(i) < TABLE_MAX_PAGES implies table.pager.pending_read(page_of(i))
        == after.pager.pending_read(page_of(i)) && #[trigger] table.record(i) == after.record(
        i,
    ) by {
        assert(after.row(i) == table.row(i));
    }
    lemma_scan_alike(table, after, n);
    lemma_scan_step(after, n, before, rec);
}

/// Appends in a row, then a scan: where no page waits for a read and
/// there is room for all of `recs`, each append is carried out, and the scan
/// then gives what it gave before and `recs` behind it, in order.
pub proof fn lemma_appends_then_scan(table: TableView, before: Seq<Record>, recs: Seq<Record>)
    requires
        table.wf(),
        table.all_loaded(),
        table.num_rows + recs.len() <= TABLE_MAX_ROWS,
        forall|i: int| 0 <= i < recs.len() ==> (#[trigger] recs[i]).fits(),
        table.scan() == Ok::<Paged<Seq<Record>>, DbError>(Paged::Ready(before)),
    ensures
        table.appended_all(recs).wf(),
        table.appended_all(recs).all_loaded(),
        table.appended_all(recs).num_rows == table.num_rows + recs.len(),
        forall|k: int|
            0 <= k < recs.len() ==> (#[trigger] table.appended_all(recs.subrange(0, k))).accepts(),
        table.appended_all(recs).scan() == Ok::<Paged<Seq<Record>>, DbError>(
            Paged::Ready(before + recs),
        ),
    decreases recs.len(),
{
    if recs.len() == 0 {
        assert(before + recs =~= before);
    } else {
        let front = recs.drop_last();
        let middle = table.appended_all(front);
        lemma_appends_then_scan(table, before, front);
        assert(middle.pager.pending_read(page_of(middle.num_rows)) is None);
        lemma_append_keeps_rows(middle, recs.last());
        lemma_append_then_scan(middle, before + front, recs.last());
        let after = middle.appended(recs.last());
        assert((before + front).push(recs.last()) =~= before + recs);
        assert forall|p: int| 0 <= p < TABLE_MAX_PAGES implies (#[trigger] after.pager.pending_read(
            p,
        )) is None by {
            assert(middle.pager.pending_read(p) is None);
        }
        assert forall|k: int| 0 <= k < recs.len() implies (#[trigger] table.appended_all(
            recs.subrange(0, k),
        )).accepts() by {
            if k < front.len() {
                assert(recs.subrange(0, k) =~= front.subrange(0, k));
            } else {
                assert(recs.subrange(0, k) =~= front);
            }
        }
    }
}

/// A table over an empty file holds no row and waits for no read.
pub proof fn lemma_empty_table()
    ensures
        TableView::opened(0).wf(),
        TableView::opened(0).all_loaded(),
        TableView::opened(0).num_rows == 0,
        TableView::opened(0).scan() == Ok::<Paged<Seq<Record>>, DbError>(
            Paged::Ready(Seq::empty()),
        ),
{
    lemma_opened_wf(0);
}

/// The table holds as many rows as its pages have room for and no more:
/// from an empty file, each of up to that many appends is carried out, and
/// the scan gives the records in the order of the appends; when as many
/// rows are there, the next append is refused.
pub proof fn lemma_fill_from_empty(recs: Seq<Record>)
    requires
        recs.len() <= TABLE_MAX_ROWS,
        forall|i: int| 0 <= i < recs.len() ==> (#[trigger] recs[i]).fits(),
    ensures
        forall|k: int|
            0 <= k < recs.len() ==> (#[trigger] TableView::opened(0).appended_all(
                recs.subrange(0, k),
            )).accepts(),
        TableView::opened(0).appended_all(recs).num_rows == recs.len(),
        TableView::opened(0).appended_all(recs).scan() == Ok::<Paged<Seq<Record>>, DbError>(
            Paged::Ready(recs),
        ),
        TableView::opened(0).appended_all(recs).accepts() <==> recs.len() < TABLE_MAX_ROWS,
{
    lemma_empty_table();
    lemma_appends_then_scan(TableView::opened(0), Seq::empty(), recs);
    assert(Seq::<Record>::empty() + recs =~= recs);
}

} // verus!
