use simple_db::layout::{
    EMAIL_SIZE, PAGE_SIZE, ROWS_PER_PAGE, ROW_SIZE, TABLE_MAX_PAGES, TABLE_MAX_ROWS, USERID_SIZE,
};
use simple_db::Row;

fn row(id: u32, user_id: &str, email: &str) -> Row {
    Row {
        id,
        user_id: String::from(user_id),
        email: String::from(email),
    }
}

#[test]
fn layout_constants() {
    assert_eq!(USERID_SIZE, 31);
    assert_eq!(EMAIL_SIZE, 254);
    assert_eq!(ROW_SIZE, 291);
    assert_eq!(PAGE_SIZE, 4096);
    assert_eq!(ROWS_PER_PAGE, 14);
    assert_eq!(TABLE_MAX_PAGES, 100);
    assert_eq!(TABLE_MAX_ROWS, 1400);
}

#[test]
fn serialize_lays_out_the_bytes() {
    let mut data = vec![0xeeu8; ROW_SIZE];
    row(0x0102_0304, "ab", "c@d").serialize(&mut data);
    assert_eq!(&data[0..4], &[0x04, 0x03, 0x02, 0x01]);
    assert_eq!(data[4], 2);
    assert_eq!(data[5], 3);
    assert_eq!(&data[6..8], b"ab");
    assert_eq!(&data[8..11], b"c@d");
    // What lies behind the record is left alone.
    assert!(data[11..].iter().all(|b| *b == 0xee));
}

#[test]
fn round_trip_of_a_plain_row() {
    let mut data = vec![0u8; ROW_SIZE];
    let r = row(1, "user1", "person1@example.com");
    r.serialize(&mut data);
    assert_eq!(Row::deserialize(&data), Some(row(1, "user1", "person1@example.com")));
}

#[test]
fn round_trip_of_the_largest_id() {
    let mut data = vec![0u8; ROW_SIZE];
    row(u32::MAX, "", "").serialize(&mut data);
    assert_eq!(&data[0..6], &[0xff, 0xff, 0xff, 0xff, 0, 0]);
    assert_eq!(Row::deserialize(&data), Some(row(u32::MAX, "", "")));
}

#[test]
fn round_trip_of_the_longest_fields() {
    let user = "u".repeat(31);
    let email = "e".repeat(254);
    let mut data = vec![0u8; ROW_SIZE];
    row(7, &user, &email).serialize(&mut data);
    assert_eq!(data[4], 31);
    assert_eq!(data[5], 254);
    assert_eq!(data[290], b'e');
    assert_eq!(Row::deserialize(&data), Some(row(7, &user, &email)));
}

#[test]
fn round_trip_of_text_outside_ascii() {
    // Lengths count bytes: ten characters, thirty bytes.
    let user = "\u{20ac}".repeat(10);
    let email = "\u{e9}@\u{1f600}.example";
    let mut data = vec![0u8; ROW_SIZE];
    row(9, &user, email).serialize(&mut data);
    assert_eq!(data[4], 30);
    assert_eq!(data[5] as usize, email.len());
    assert_eq!(Row::deserialize(&data), Some(row(9, &user, email)));
}

#[test]
fn round_trip_in_a_longer_buffer() {
    let mut data = vec![0u8; PAGE_SIZE];
    row(3, "x", "y").serialize(&mut data);
    assert_eq!(Row::deserialize(&data[..ROW_SIZE]), Some(row(3, "x", "y")));
    assert_eq!(Row::deserialize(&data), Some(row(3, "x", "y")));
}

#[test]
fn zeros_decode_to_the_empty_row() {
    let data = vec![0u8; ROW_SIZE];
    assert_eq!(Row::deserialize(&data), Some(row(0, "", "")));
}

#[test]
fn deserialize_refuses_bytes_that_are_not_utf8() {
    let mut data = vec![0u8; ROW_SIZE];
    data[4] = 1;
    data[6] = 0xff;
    assert_eq!(Row::deserialize(&data), None);
    // An email that stops in the middle of a character.
    let mut data = vec![0u8; ROW_SIZE];
    data[5] = 2;
    data[6] = 0xe2;
    data[7] = 0x82;
    assert_eq!(Row::deserialize(&data), None);
    // A surrogate and an overlong form are no UTF-8 either.
    let mut data = vec![0u8; ROW_SIZE];
    data[4] = 3;
    data[6..9].copy_from_slice(&[0xed, 0xa0, 0x80]);
    assert_eq!(Row::deserialize(&data), None);
    let mut data = vec![0u8; ROW_SIZE];
    data[4] = 2;
    data[6..8].copy_from_slice(&[0xc0, 0x80]);
    assert_eq!(Row::deserialize(&data), None);
}

#[test]
fn deserialize_refuses_lengths_that_leave_the_buffer() {
    let mut data = vec![b'a'; ROW_SIZE];
    data[4] = 255;
    data[5] = 255;
    assert_eq!(Row::deserialize(&data), None);
    data[4] = 200;
    data[5] = 86;
    assert_eq!(Row::deserialize(&data), None);
    data[5] = 85;
    assert!(Row::deserialize(&data).is_some());
}

#[test]
fn deserialize_refuses_a_buffer_without_a_header() {
    assert_eq!(Row::deserialize(&[]), None);
    assert_eq!(Row::deserialize(&[1, 0, 0, 0, 0]), None);
    assert_eq!(Row::deserialize(&[1, 0, 0, 0, 0, 0]), Some(row(1, "", "")));
}

#[test]
fn deserialize_reads_lengths_past_the_field_sizes() {
    // The codec reads what the lengths say, also where a field is longer
    // than an insert would let it be.
    let mut data = vec![b'z'; ROW_SIZE];
    data[0..4].copy_from_slice(&[5, 0, 0, 0]);
    data[4] = 40;
    data[5] = 10;
    assert_eq!(
        Row::deserialize(&data),
        Some(row(5, &"z".repeat(40), &"z".repeat(10)))
    );
}
