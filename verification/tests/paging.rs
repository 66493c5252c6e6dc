use simple_db::{DbError, PageRead, PageWrite, Paged, Pager, Row, Table};

fn row(id: u32, user_id: &str, email: &str) -> Row {
    Row {
        id,
        user_id: String::from(user_id),
        email: String::from(email),
    }
}

fn numbered(i: u32) -> Row {
    row(i, &format!("user{}", i), &format!("person{}@example.com", i))
}

// The file is a vector of bytes here: reads are served from it and the
// writes of a close are applied to it, as a file system would.

fn serve(file: &[u8], read: &PageRead) -> Vec<u8> {
    let start = read.offset as usize;
    file[start..start + read.len].to_vec()
}

fn apply(file: &mut Vec<u8>, writes: &[PageWrite]) {
    for write in writes {
        let start = write.offset as usize;
        let end = start + write.bytes.len();
        if file.len() < end {
            file.resize(end, 0);
        }
        file[start..end].copy_from_slice(&write.bytes);
    }
}

fn append(table: &mut Table, file: &[u8], r: &Row) -> Result<(), DbError> {
    loop {
        match table.add_row(r)? {
            Paged::Ready(()) => return Ok(()),
            Paged::Fault(read) => assert!(table.load(read.page_num, &serve(file, &read))),
        }
    }
}

fn scan(table: &mut Table, file: &[u8]) -> Result<Vec<Row>, DbError> {
    loop {
        match table.scan()? {
            Paged::Ready(rows) => return Ok(rows),
            Paged::Fault(read) => assert!(table.load(read.page_num, &serve(file, &read))),
        }
    }
}

fn file_of(count: u32) -> Vec<u8> {
    let mut file = vec![];
    let mut table = Table::db_open(0);
    for i in 0..count {
        append(&mut table, &file, &numbered(i)).unwrap();
    }
    apply(&mut file, &table.close());
    file
}

#[test]
fn pager_over_an_empty_file_makes_pages_of_zeros() {
    let mut pager = Pager::open(0);
    assert_eq!(pager.file_length(), 0);
    for p in 0..100 {
        assert!(!pager.is_resident(p));
        assert_eq!(pager.pending_read(p), None);
    }
    match pager.get(3) {
        Paged::Ready(page) => {
            assert_eq!(page.len(), 4096);
            assert!(page.iter().all(|b| *b == 0));
            page[17] = 9;
        }
        Paged::Fault(_) => panic!("nothing to read"),
    }
    assert!(pager.is_resident(3));
    assert!(!pager.is_resident(2));
    assert!(!pager.is_resident(100));
    match pager.get(3) {
        Paged::Ready(page) => assert_eq!(page[17], 9),
        Paged::Fault(_) => panic!("nothing to read"),
    }
}

#[test]
fn pager_asks_for_what_the_file_holds_of_a_page() {
    let pager = Pager::open(5000);
    assert_eq!(
        pager.pending_read(0),
        Some(PageRead { page_num: 0, offset: 0, len: 4096 })
    );
    assert_eq!(
        pager.pending_read(1),
        Some(PageRead { page_num: 1, offset: 4096, len: 904 })
    );
    assert_eq!(pager.pending_read(2), None);
    assert_eq!(pager.pending_read(100), None);

    let pager = Pager::open(8192);
    assert_eq!(
        pager.pending_read(1),
        Some(PageRead { page_num: 1, offset: 4096, len: 4096 })
    );
    assert_eq!(pager.pending_read(2), None);

    let pager = Pager::open(1);
    assert_eq!(
        pager.pending_read(0),
        Some(PageRead { page_num: 0, offset: 0, len: 1 })
    );
    assert_eq!(pager.pending_read(1), None);

    // A file longer than the table: the last page is asked for whole.
    let pager = Pager::open(100 * 4096 + 5);
    assert_eq!(
        pager.pending_read(99),
        Some(PageRead { page_num: 99, offset: 99 * 4096, len: 4096 })
    );
}

#[test]
fn pager_faults_until_the_page_is_loaded() {
    let mut pager = Pager::open(5000);
    match pager.get(1) {
        Paged::Fault(read) => assert_eq!(read, PageRead { page_num: 1, offset: 4096, len: 904 }),
        Paged::Ready(_) => panic!("the page was not read yet"),
    }
    assert!(!pager.is_resident(1));
    // Too few bytes, too many, the wrong page: nothing is taken.
    assert!(!pager.load(1, &vec![7u8; 903]));
    assert!(!pager.load(1, &vec![7u8; 4096]));
    assert!(!pager.load(2, &vec![7u8; 904]));
    assert!(!pager.load(100, &[]));
    assert!(!pager.is_resident(1));
    assert!(!pager.is_resident(2));
    assert!(pager.load(1, &vec![7u8; 904]));
    assert!(pager.is_resident(1));
    assert_eq!(pager.pending_read(1), None);
    match pager.get(1) {
        Paged::Ready(page) => {
            assert_eq!(page.len(), 4096);
            assert!(page[..904].iter().all(|b| *b == 7));
            assert!(page[904..].iter().all(|b| *b == 0));
        }
        Paged::Fault(_) => panic!("the page is resident"),
    }
    // A second answer to the same read is dropped.
    assert!(!pager.load(1, &vec![8u8; 904]));
    // A page behind the end of the file is made, not read.
    match pager.get(2) {
        Paged::Ready(page) => assert!(page.iter().all(|b| *b == 0)),
        Paged::Fault(_) => panic!("nothing to read"),
    }
}

#[test]
fn pager_flushes_resident_pages_only() {
    let mut pager = Pager::open(0);
    assert_eq!(pager.flush(0, 4096), None);
    assert_eq!(pager.flush(5, 291), None);
    match pager.get(5) {
        Paged::Ready(page) => {
            page[0] = 1;
            page[290] = 2;
            page[291] = 3;
        }
        Paged::Fault(_) => panic!("nothing to read"),
    }
    let write = pager.flush(5, 291).unwrap();
    assert_eq!(write.offset, 5 * 4096);
    assert_eq!(write.bytes.len(), 291);
    assert_eq!(write.bytes[0], 1);
    assert_eq!(write.bytes[290], 2);
    let write = pager.flush(5, 4096).unwrap();
    assert_eq!(write.offset, 20480);
    assert_eq!(write.bytes.len(), 4096);
    assert_eq!(write.bytes[291], 3);
    let write = pager.flush(5, 0).unwrap();
    assert_eq!(write, PageWrite { offset: 20480, bytes: vec![] });
    assert_eq!(pager.flush(4, 4096), None);
}

#[test]
fn open_counts_the_rows_from_the_length() {
    assert_eq!(Table::db_open(0).num_rows(), 0);
    assert_eq!(Table::db_open(290).num_rows(), 0);
    assert_eq!(Table::db_open(291).num_rows(), 1);
    assert_eq!(Table::db_open(581).num_rows(), 1);
    assert_eq!(Table::db_open(582).num_rows(), 2);
    assert_eq!(Table::db_open(13 * 291).num_rows(), 13);
    assert_eq!(Table::db_open(4073).num_rows(), 13);
    assert_eq!(Table::db_open(4074).num_rows(), 14);
    assert_eq!(Table::db_open(4095).num_rows(), 14);
    assert_eq!(Table::db_open(4096).num_rows(), 14);
    assert_eq!(Table::db_open(4096 + 290).num_rows(), 14);
    assert_eq!(Table::db_open(4096 + 291).num_rows(), 15);
    assert_eq!(Table::db_open(13 * 4096 + 100).num_rows(), 182);
    assert_eq!(Table::db_open(99 * 4096 + 13 * 291).num_rows(), 1399);
    assert_eq!(Table::db_open(100 * 4096).num_rows(), 1400);
    assert_eq!(Table::db_open(4096).file_length(), 4096);
}

#[test]
fn get_row_finds_the_slot() {
    let mut table = Table::db_open(0);
    // Row 15 is the second row of the second page.
    match table.get_row(15).unwrap() {
        Paged::Ready(data) => {
            assert_eq!(data.len(), 291);
            numbered(15).serialize(data);
        }
        Paged::Fault(_) => panic!("nothing to read"),
    }
    match table.get_row(15).unwrap() {
        Paged::Ready(data) => assert_eq!(Row::deserialize(data), Some(numbered(15))),
        Paged::Fault(_) => panic!("nothing to read"),
    }
    // Its neighbours are untouched, and the first page was never made.
    match table.get_row(14).unwrap() {
        Paged::Ready(data) => assert!(data.iter().all(|b| *b == 0)),
        Paged::Fault(_) => panic!("nothing to read"),
    }
    match table.get_row(16).unwrap() {
        Paged::Ready(data) => assert!(data.iter().all(|b| *b == 0)),
        Paged::Fault(_) => panic!("nothing to read"),
    }
    assert_eq!(table.num_rows(), 0);
    assert_eq!(table.close(), vec![]);
}

#[test]
fn get_row_ends_with_the_last_page() {
    let mut table = Table::db_open(0);
    assert!(matches!(table.get_row(1399), Ok(Paged::Ready(_))));
    assert!(matches!(table.get_row(1400), Err(DbError::TableFull)));
    assert!(matches!(table.get_row(u64::MAX), Err(DbError::TableFull)));
}

#[test]
fn get_row_faults_on_a_page_of_the_file() {
    let file = file_of(20);
    let mut table = Table::db_open(file.len() as u64);
    match table.get_row(14) {
        Ok(Paged::Fault(read)) => {
            assert_eq!(read, PageRead { page_num: 1, offset: 4096, len: 6 * 291 });
            assert!(table.load(read.page_num, &serve(&file, &read)));
        }
        _ => panic!("the page was not read yet"),
    }
    match table.get_row(14).unwrap() {
        Paged::Ready(data) => assert_eq!(Row::deserialize(data), Some(numbered(14))),
        Paged::Fault(_) => panic!("the page is resident"),
    }
}

#[test]
fn append_then_scan_keeps_the_order() {
    let file: Vec<u8> = vec![];
    let mut table = Table::db_open(0);
    let rows = vec![row(3, "c", "c@x"), row(1, "a", "a@x"), row(3, "c", "c@x"), row(2, "b", "")];
    for (i, r) in rows.iter().enumerate() {
        assert_eq!(table.num_rows(), i as u64);
        append(&mut table, &file, r).unwrap();
    }
    assert_eq!(table.num_rows(), 4);
    assert_eq!(scan(&mut table, &file).unwrap(), rows);
    // A scan starts over each time.
    assert_eq!(scan(&mut table, &file).unwrap(), rows);
}

#[test]
fn scan_of_an_empty_table() {
    let mut table = Table::db_open(0);
    assert_eq!(scan(&mut table, &[]).unwrap(), vec![]);
}

#[test]
fn capacity_is_1400_rows() {
    let file: Vec<u8> = vec![];
    let mut table = Table::db_open(0);
    for i in 0..1400 {
        assert!(matches!(table.add_row(&numbered(i)), Ok(Paged::Ready(()))));
    }
    assert_eq!(table.num_rows(), 1400);
    assert!(matches!(table.add_row(&numbered(1400)), Err(DbError::TableFull)));
    assert_eq!(table.num_rows(), 1400);
    let rows = scan(&mut table, &file).unwrap();
    assert_eq!(rows.len(), 1400);
    for (i, r) in rows.iter().enumerate() {
        assert_eq!(*r, numbered(i as u32));
    }
}

#[test]
fn close_writes_the_live_bytes() {
    let mut table = Table::db_open(0);
    append(&mut table, &[], &numbered(0)).unwrap();
    let writes = table.close();
    assert_eq!(writes.len(), 1);
    assert_eq!(writes[0].offset, 0);
    assert_eq!(writes[0].bytes.len(), 291);

    let mut table = Table::db_open(0);
    for i in 0..14 {
        append(&mut table, &[], &numbered(i)).unwrap();
    }
    let writes = table.close();
    assert_eq!(writes.len(), 1);
    assert_eq!(writes[0].offset, 0);
    assert_eq!(writes[0].bytes.len(), 4096);

    let mut table = Table::db_open(0);
    for i in 0..31 {
        append(&mut table, &[], &numbered(i)).unwrap();
    }
    let writes = table.close();
    assert_eq!(writes.len(), 3);
    assert_eq!((writes[0].offset, writes[0].bytes.len()), (0, 4096));
    assert_eq!((writes[1].offset, writes[1].bytes.len()), (4096, 4096));
    assert_eq!((writes[2].offset, writes[2].bytes.len()), (8192, 3 * 291));
    let mut slot = vec![0u8; 291];
    numbered(30).serialize(&mut slot);
    assert_eq!(&writes[2].bytes[2 * 291..], &slot[..]);

    assert_eq!(Table::db_open(0).close(), vec![]);
}

#[test]
fn close_leaves_untouched_pages_alone() {
    let file = file_of(40);
    assert_eq!(file.len(), 2 * 4096 + 12 * 291);
    // Nothing was touched: nothing is written.
    let table = Table::db_open(file.len() as u64);
    assert_eq!(table.num_rows(), 40);
    assert_eq!(table.close(), vec![]);
    // An append touches the last page only.
    let mut table = Table::db_open(file.len() as u64);
    append(&mut table, &file, &numbered(40)).unwrap();
    let writes = table.close();
    assert_eq!(writes.len(), 1);
    assert_eq!((writes[0].offset, writes[0].bytes.len()), (8192, 13 * 291));
    // A scan touches them all, and they go back as they came.
    let mut table = Table::db_open(file.len() as u64);
    scan(&mut table, &file).unwrap();
    let writes = table.close();
    assert_eq!(writes.len(), 3);
    let mut again = file.clone();
    apply(&mut again, &writes);
    assert_eq!(again, file);
}

#[test]
fn rows_persist_over_close_and_open() {
    for k in [0u32, 1, 13, 14, 15, 1399, 1400] {
        let file = file_of(k);
        let mut table = Table::db_open(file.len() as u64);
        assert_eq!(table.num_rows(), k as u64);
        let rows = scan(&mut table, &file).unwrap();
        assert_eq!(rows.len(), k as usize);
        for (i, r) in rows.iter().enumerate() {
            assert_eq!(*r, numbered(i as u32));
        }
    }
}

#[test]
fn file_length_follows_the_rows() {
    assert_eq!(file_of(0).len(), 0);
    assert_eq!(file_of(1).len(), 291);
    assert_eq!(file_of(13).len(), 13 * 291);
    assert_eq!(file_of(14).len(), 4096);
    assert_eq!(file_of(15).len(), 4096 + 291);
    assert_eq!(file_of(1399).len(), 99 * 4096 + 13 * 291);
    assert_eq!(file_of(1400).len(), 100 * 4096);
}

#[test]
fn appends_continue_after_reopening() {
    let mut file = file_of(5);
    for round in 0..4u32 {
        let mut table = Table::db_open(file.len() as u64);
        for i in 0..20 {
            append(&mut table, &file, &numbered(5 + round * 20 + i)).unwrap();
        }
        let writes = table.close();
        apply(&mut file, &writes);
    }
    let mut table = Table::db_open(file.len() as u64);
    let rows = scan(&mut table, &file).unwrap();
    assert_eq!(rows.len(), 85);
    for (i, r) in rows.iter().enumerate() {
        assert_eq!(*r, numbered(i as u32));
    }
}

#[test]
fn a_short_tail_of_the_file_is_no_row() {
    // One page, one row, and a hundred bytes that are no row.
    let mut file = file_of(15);
    file.extend_from_slice(&[0xffu8; 100]);
    let mut table = Table::db_open(file.len() as u64);
    assert_eq!(table.num_rows(), 15);
    match table.add_row(&numbered(15)) {
        Ok(Paged::Fault(read)) => {
            assert_eq!(read, PageRead { page_num: 1, offset: 4096, len: 391 });
            assert!(table.load(1, &serve(&file, &read)));
        }
        _ => panic!("the page was not read yet"),
    }
    assert_eq!(table.num_rows(), 15);
    assert!(matches!(table.add_row(&numbered(15)), Ok(Paged::Ready(()))));
    assert_eq!(table.num_rows(), 16);
    let writes = table.close();
    assert_eq!(writes.len(), 1);
    assert_eq!((writes[0].offset, writes[0].bytes.len()), (4096, 582));
    apply(&mut file, &writes);
    assert_eq!(file.len(), 4096 + 582);
    let mut table = Table::db_open(file.len() as u64);
    let rows = scan(&mut table, &file).unwrap();
    assert_eq!(rows.len(), 16);
    assert_eq!(rows[15], numbered(15));
}

#[test]
fn scan_stops_at_bytes_that_are_no_record() {
    let mut file = file_of(3);
    // Break the user id of the second row.
    file[291 + 6] = 0xff;
    let mut table = Table::db_open(file.len() as u64);
    assert!(matches!(table.scan(), Ok(Paged::Fault(_))));
    assert!(matches!(scan(&mut table, &file), Err(DbError::DecodeError)));
    // The first row alone still reads.
    let mut table = Table::db_open(291);
    assert_eq!(scan(&mut table, &file).unwrap(), vec![numbered(0)]);
}

#[test]
fn scan_reports_the_first_page_that_is_missing() {
    let file = file_of(30);
    let mut table = Table::db_open(file.len() as u64);
    match table.scan() {
        Ok(Paged::Fault(read)) => assert_eq!(read, PageRead { page_num: 0, offset: 0, len: 4096 }),
        _ => panic!("the page was not read yet"),
    }
    assert!(table.load(0, &file[0..4096]));
    match table.scan() {
        Ok(Paged::Fault(read)) => {
            assert_eq!(read, PageRead { page_num: 1, offset: 4096, len: 4096 })
        }
        _ => panic!("the page was not read yet"),
    }
    assert!(table.load(1, &file[4096..8192]));
    match table.scan() {
        Ok(Paged::Fault(read)) => {
            assert_eq!(read, PageRead { page_num: 2, offset: 8192, len: 2 * 291 })
        }
        _ => panic!("the page was not read yet"),
    }
    assert!(table.load(2, &file[8192..]));
    match table.scan() {
        Ok(Paged::Ready(rows)) => assert_eq!(rows.len(), 30),
        _ => panic!("every page is resident"),
    }
}

#[test]
fn a_file_longer_than_the_table() {
    let mut file = file_of(1400);
    file.extend_from_slice(&[0u8; 4096]);
    let mut table = Table::db_open(file.len() as u64);
    assert_eq!(table.num_rows(), 1414);
    assert!(matches!(table.add_row(&numbered(0)), Err(DbError::TableFull)));
    assert!(matches!(scan(&mut table, &file), Err(DbError::TableFull)));
    assert_eq!(table.num_rows(), 1414);
    // The hundred pages go back; what lies behind them is not touched.
    let writes = table.close();
    assert_eq!(writes.len(), 100);
    let mut again = file.clone();
    apply(&mut again, &writes);
    assert_eq!(again, file);
}
