//! The page buffers: which pages are in memory, what has to be read from
//! the file before a page can be used, and what is written back.

use crate::layout::{PAGE_SIZE, TABLE_MAX_PAGES};
use vstd::prelude::*;
use vstd::slice::{slice_subrange, slice_to_vec};

verus! {

/// A read of the backing file that has to be served before a page can be
/// used: `len` bytes from `offset` on, for page `page_num`.
#[derive(Debug, Clone, Copy, PartialEq, Eq)]
pub struct PageRead {
    pub page_num: usize,
    pub offset: u64,
    pub len: usize,
}

/// A write to the backing file: `bytes` from `offset` on.
#[derive(Debug, PartialEq, Eq)]
pub struct PageWrite {
    pub offset: u64,
    pub bytes: Vec<u8>,
}

impl View for PageWrite {
    type V = (int, Seq<u8>);

    open spec fn view(&self) -> (int, Seq<u8>) {
        (self.offset as int, self.bytes@)
    }
}

/// What an operation that touches pages hands back: its result, or the read
/// that has to be served first. After a fault nothing has changed; the caller
/// reads the bytes, hands them to `load` and asks again.
#[derive(Debug)]
pub enum Paged<T> {
    Ready(T),
    Fault(PageRead),
}

/// A page of `n` zero bytes.
pub open spec fn zeros(n: int) -> Seq<u8> {
    Seq::new(n as nat, |i: int| 0u8)
}

/// The pager as a value: the length the file had when it was opened, and
/// the page slots, an empty one for each page that is not resident.
pub struct PagerView {
    pub file_length: u64,
    pub pages: Seq<Seq<u8>>,
}

impl PagerView {
    /// The pager over a file of `file_length` bytes before any page is
    /// touched.
    pub open spec fn opened(file_length: u64) -> PagerView {
        PagerView {
            file_length,
            pages: Seq::new(TABLE_MAX_PAGES as nat, |p: int| Seq::<u8>::empty()),
        }
    }

    /// Every slot is there, and holds no bytes or a whole page.
    pub open spec fn wf(self) -> bool {
        &&& self.pages.len() == TABLE_MAX_PAGES
        &&& forall|p: int|
            0 <= p < self.pages.len() ==> (#[trigger] self.pages[p]).len() == 0
                || self.pages[p].len() == PAGE_SIZE
    }

    /// Page `p` is in memory.
    pub open spec fn resident(self, p: int) -> bool {
        0 <= p < self.pages.len() && self.pages[p].len() != 0
    }

    /// Pages that the file holds, a short last one counted.
    pub open spec fn pages_in_file(self) -> int {
        (self.file_length + PAGE_SIZE - 1) / (PAGE_SIZE as int)
    }

    /// Bytes of page `p` that the file holds.
    pub open spec fn bytes_in_file(self, p: int) -> int {
        if self.file_length < p * PAGE_SIZE + PAGE_SIZE {
            self.file_length - p * PAGE_SIZE
        } else {
            PAGE_SIZE as int
        }
    }

    /// The read that page `p` waits for: it is not resident and the file
    /// holds some of it.
    pub open spec fn pending_read(self, p: int) -> Option<PageRead> {
        if 0 <= p < self.pages.len() && !self.resident(p) && p < self.pages_in_file() {
            Some(
                PageRead {
                    page_num: p as usize,
                    offset: (p * PAGE_SIZE) as u64,
                    len: self.bytes_in_file(p) as usize,
                },
            )
        } else {
            None
        }
    }

    /// The bytes that `get` hands out for page `p`: the page, or zeros for
    /// a page that is made now.
    pub open spec fn page_or_zeros(self, p: int) -> Seq<u8> {
        if self.resident(p) {
            self.pages[p]
        } else {
            zeros(PAGE_SIZE as int)
        }
    }

    /// The pager with `bytes` in slot `p`.
    pub open spec fn with_page(self, p: int, bytes: Seq<u8>) -> PagerView {
        PagerView { file_length: self.file_length, pages: self.pages.update(p, bytes) }
    }

    /// The pager after the read for page `p` brought `bytes`: they start
    /// the page and zeros fill it. Bytes that answer no pending read are
    /// dropped.
    pub open spec fn loaded(self, p: int, bytes: Seq<u8>) -> PagerView {
        match self.pending_read(p) {
            Some(read) if read.len == bytes.len() => self.with_page(
                p,
                bytes + zeros(PAGE_SIZE - bytes.len()),
            ),
            _ => self,
        }
    }

    /// The write that flushes the first `size` bytes of page `p`: none for
    /// a page that is not resident.
    pub open spec fn flushed(self, p: int, size: int) -> Option<(int, Seq<u8>)> {
        if self.resident(p) {
            Some((p * PAGE_SIZE, self.pages[p].subrange(0, size)))
        } else {
            None
        }
    }
}

/// Maps page numbers to page buffers and says what to read from the file
/// and what to write to it; the reading and writing itself is the caller's.
pub struct Pager {
    file_length: u64,
    pages: Vec<Vec<u8>>,
}

impl View for Pager {
    type V = PagerView;

    closed spec fn view(&self) -> PagerView {
        PagerView {
            file_length: self.file_length,
            pages: Seq::new(self.pages@.len(), |p: int| self.pages@[p]@),
        }
    }
}

impl Pager {
    /// The invariant of a pager.
    pub open spec fn wf(&self) -> bool {
        self@.wf()
    }

    /// A pager over a file of `file_length` bytes, with no page resident.
    pub fn open(file_length: u64) -> (pager: Pager)
        ensures
            pager.wf(),
            pager@ == PagerView::opened(file_length),
    {
        let mut pages: Vec<Vec<u8>> = Vec::with_capacity(TABLE_MAX_PAGES);
        let mut i: usize = 0;
        while i < TABLE_MAX_PAGES
            invariant
                i <= TABLE_MAX_PAGES,
                pages@.len() == i,
                forall|p: int| 0 <= p < i ==> (#[trigger] pages@[p])@.len() == 0,
            decreases TABLE_MAX_PAGES - i,
        {
            pages.push(Vec::new());
            i += 1;
        }
        let pager = Pager { file_length, pages };
        assert(pager@.pages =~~= PagerView::opened(file_length).pages);
        pager
    }

    /// The length the file had when the pager was opened.
    pub fn file_length(&self) -> (n: u64)
        ensures
            n == self@.file_length,
    {
        self.file_length
    }

    /// Whether page `page_num` is in memory.
    pub fn is_resident(&self, page_num: usize) -> (r: bool)
        requires
            self.wf(),
        ensures
            r == self@.resident(page_num as int),
    {
        page_num < TABLE_MAX_PAGES && self.pages[page_num].len() != 0
    }

    /// The read that page `page_num` waits for, if it waits for one.
    pub fn pending_read(&self, page_num: usize) -> (r: Option<PageRead>)
        requires
            self.wf(),
        ensures
            r == self@.pending_read(page_num as int),
    {
        if page_num >= TABLE_MAX_PAGES || self.pages[page_num].len() != 0 {
            return None;
        }
        let mut num_pages: u64 = self.file_length / PAGE_SIZE as u64;
        if self.file_length % PAGE_SIZE as u64 != 0 {
            num_pages += 1;
        }
        if (page_num as u64) < num_pages {
            let start_offset: u64 = (page_num * PAGE_SIZE) as u64;
            // Of a last page that is short, only what the file holds is read.
            let mut size: usize = PAGE_SIZE;
            if self.file_length < start_offset + PAGE_SIZE as u64 {
                size = (self.file_length - start_offset) as usize;
            }
            Some(PageRead { page_num, offset: start_offset, len: size })
        } else {
            None
        }
    }

    /// The buffer of page `page_num`, to read and to write in place. A page
    /// that is not resident and lies behind the end of the file is made of
    /// zeros now; one that the file holds is asked for with a fault.
    pub fn get(&mut self, page_num: usize) -> (r: Paged<&mut [u8]>)
        requires
            old(self).wf(),
            page_num < TABLE_MAX_PAGES,
        ensures
            match old(self)@.pending_read(page_num as int) {
                Some(read) => r matches Paged::Fault(fault) && fault == read && final(self)@
                    == old(self)@,
                None => r matches Paged::Ready(buf) && buf@ == old(self)@.page_or_zeros(
                    page_num as int,
                ) && final(self)@.file_length == old(self)@.file_length && final(self)@.pages
                    =~= old(self)@.pages.update(page_num as int, final(buf)@),
            },
    {
        if self.pages[page_num].len() == 0 {
            match self.pending_read(page_num) {
                Some(read) => {
                    return Paged::Fault(read);
                },
                None => {},
            }
            let page: Vec<u8> = vec![0u8; PAGE_SIZE];
            assert(page@ =~= zeros(PAGE_SIZE as int));
            self.pages[page_num] = page;
        }
        Paged::Ready(self.pages[page_num].as_mut_slice())
    }

    /// Completes the read for page `page_num` with the bytes that were
    /// read: the page becomes resident, `bytes` at its start and zeros
    /// behind them. Bytes that answer no pending read are dropped, and the
    /// result says so.
    pub fn load(&mut self, page_num: usize, bytes: &[u8]) -> (done: bool)
        requires
            old(self).wf(),
        ensures
            final(self).wf(),
            final(self)@ == old(self)@.loaded(page_num as int, bytes@),
            done == (old(self)@.pending_read(page_num as int) matches Some(read) && read.len
                == bytes@.len()),
    {
        match self.pending_read(page_num) {
            Some(read) => {
                if read.len != bytes.len() {
                    return false;
                }
                let mut page: Vec<u8> = vec![0u8; PAGE_SIZE];
                let mut i: usize = 0;
                while i < bytes.len()
                    invariant
                        i <= bytes@.len() <= PAGE_SIZE,
                        page@.len() == PAGE_SIZE,
                        forall|k: int| 0 <= k < i ==> page@[k] == bytes@[k],
                        forall|k: int| i <= k < PAGE_SIZE ==> page@[k] == 0u8,
                    decreases bytes@.len() - i,
                {
                    page[i] = bytes[i];
                    i += 1;
                }
                assert(page@ =~= bytes@ + zeros(PAGE_SIZE - bytes@.len()));
                self.pages[page_num] = page;
                assert(self@.pages =~= old(self)@.pages.update(page_num as int, page@));
                true
            },
            None => false,
        }
    }

    /// The write that brings the first `size` bytes of page `page_num` to
    /// the file: none for a page that was never made resident.
    pub fn flush(&self, page_num: usize, size: usize) -> (r: Option<PageWrite>)
        requires
            self.wf(),
            page_num < TABLE_MAX_PAGES,
            size <= PAGE_SIZE,
        ensures
            match r {
                Some(write) => self@.flushed(page_num as int, size as int) == Some(write@),
                None => self@.flushed(page_num as int, size as int) is None,
            },
    {
        if self.pages[page_num].len() == 0 {
            return None;
        }
        let bytes = slice_to_vec(slice_subrange(self.pages[page_num].as_slice(), 0, size));
        Some(PageWrite { offset: (page_num * PAGE_SIZE) as u64, bytes })
    }
}

/// Pages go one way, from the file into memory: a load makes its page
/// resident where the bytes answer the read it waits for, no page stops
/// being resident, and a page that is resident keeps its bytes.
pub proof fn lemma_load_one_way(pager: PagerView, p: int, bytes: Seq<u8>)
    requires
        pager.wf(),
    ensures
        pager.loaded(p, bytes).wf(),
        pager.loaded(p, bytes).file_length == pager.file_length,
        (pager.pending_read(p) matches Some(read) && read.len == bytes.len())
            ==> pager.loaded(p, bytes).resident(p) && pager.loaded(p, bytes).pages[p].subrange(
            0,
            bytes.len() as int,
        ) == bytes,
        forall|q: int|
            pager.resident(q) ==> pager.loaded(p, bytes).resident(q) && #[trigger] pager.loaded(
                p,
                bytes,
            ).pages[q] == pager.pages[q],
{
    let after = pager.loaded(p, bytes);
    if pager.pending_read(p) matches Some(read) && read.len == bytes.len() {
        let page = bytes + zeros(PAGE_SIZE - bytes.len());
        assert(0 <= pager.bytes_in_file(p) <= PAGE_SIZE);
        assert(page.len() == PAGE_SIZE);
        assert(after.pages == pager.pages.update(p, page));
        assert(page.subrange(0, bytes.len() as int) =~= bytes);
        assert forall|q: int| 0 <= q < after.pages.len() implies (#[trigger] after.pages[q]).len()
            == 0 || after.pages[q].len() == PAGE_SIZE by {
            let _ = pager.pages[q];
        }
    }
}

} // verus!
