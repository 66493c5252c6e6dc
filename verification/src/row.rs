//! The layout of a record in its slot, and the way there and back.

use crate::layout::{EMAIL_SIZE, HEADER_SIZE, ROW_SIZE, USERID_SIZE};
use vstd::prelude::*;
use vstd::slice::slice_subrange;
use vstd::utf8::*;

verus! {

/// A record as a value: the id and the two texts as sequences of characters.
pub struct Record {
    pub id: u32,
    pub user_id: Seq<char>,
    pub email: Seq<char>,
}

/// The four bytes of an id, least significant first.
pub open spec fn id_bytes(id: u32) -> Seq<u8> {
    seq![
        (id % 256) as u8,
        (id / 256 % 256) as u8,
        (id / 65536 % 256) as u8,
        (id / 16777216) as u8,
    ]
}

/// The id that the first four bytes of `bytes` spell, least significant first.
pub open spec fn id_value(bytes: Seq<u8>) -> int
    recommends
        bytes.len() >= 4,
{
    bytes[0] + 256 * bytes[1] + 65536 * bytes[2] + 16777216 * bytes[3]
}

impl Record {
    /// The user id in UTF-8.
    pub open spec fn user_bytes(self) -> Seq<u8> {
        encode_utf8(self.user_id)
    }

    /// The email address in UTF-8.
    pub open spec fn email_bytes(self) -> Seq<u8> {
        encode_utf8(self.email)
    }

    /// Both texts are within the lengths the row layout leaves for them.
    pub open spec fn fits(self) -> bool {
        &&& self.user_bytes().len() <= USERID_SIZE
        &&& self.email_bytes().len() <= EMAIL_SIZE
    }

    /// The bytes a record occupies at the start of its row: the id, the two
    /// lengths, then the two texts back to back.
    pub open spec fn encoded(self) -> Seq<u8> {
        id_bytes(self.id) + seq![self.user_bytes().len() as u8, self.email_bytes().len() as u8]
            + self.user_bytes() + self.email_bytes()
    }
}

/// The record that a row's bytes hold, if they hold one: the two lengths must
/// stay inside `bytes`, and each text must be well-formed UTF-8.
pub open spec fn decode(bytes: Seq<u8>) -> Option<Record> {
    if bytes.len() < HEADER_SIZE {
        None
    } else {
        let user_end = HEADER_SIZE + bytes[4];
        let email_end = user_end + bytes[5];
        let user = bytes.subrange(HEADER_SIZE as int, user_end);
        let email = bytes.subrange(user_end, email_end);
        if email_end <= bytes.len() && valid_utf8(user) && valid_utf8(email) {
            Some(
                Record {
                    id: id_value(bytes) as u32,
                    user_id: decode_utf8(user),
                    email: decode_utf8(email),
                },
            )
        } else {
            None
        }
    }
}

/// The bytes of an id spell the id.
pub proof fn lemma_id_bytes(id: u32)
    ensures
        id_bytes(id).len() == 4,
        id_value(id_bytes(id)) == id,
{
}

/// Decoding what was encoded gives the record back, whatever follows the
/// encoded bytes in the row.
pub proof fn lemma_round_trip(rec: Record, tail: Seq<u8>)
    requires
        rec.fits(),
    ensures
        decode(rec.encoded() + tail) == Some(rec),
{
    encode_utf8_valid_utf8(rec.user_id);
    encode_utf8_valid_utf8(rec.email);
    encode_utf8_decode_utf8(rec.user_id);
    encode_utf8_decode_utf8(rec.email);
    let bytes = rec.encoded() + tail;
    let user_end = HEADER_SIZE + rec.user_bytes().len();
    let email_end = user_end + rec.email_bytes().len();
    assert(bytes[4] == rec.user_bytes().len());
    assert(bytes[5] == rec.email_bytes().len());
    assert(bytes.subrange(HEADER_SIZE as int, user_end as int) =~= rec.user_bytes());
    assert(bytes.subrange(user_end as int, email_end as int) =~= rec.email_bytes());
    assert(id_value(bytes) == id_value(id_bytes(rec.id)));
    lemma_id_bytes(rec.id);
}

/// One row of the table.
#[derive(Debug, PartialEq, Eq)]
pub struct Row {
    pub id: u32,
    pub user_id: String,
    pub email: String,
}

impl View for Row {
    type V = Record;

    open spec fn view(&self) -> Record {
        Record { id: self.id, user_id: self.user_id@, email: self.email@ }
    }
}

impl Row {
    /// Reads a row back from the bytes of its slot. `None` where the bytes
    /// hold no record.
    pub fn deserialize(data: &[u8]) -> (r: Option<Row>)
        ensures
            match r {
                Some(row) => decode(data@) == Some(row@),
                None => decode(data@) is None,
            },
    {
        if data.len() < HEADER_SIZE {
            return None;
        }
        let id: u32 = data[0] as u32 + 256 * (data[1] as u32) + 65536 * (data[2] as u32) + 16777216
            * (data[3] as u32);
        let user_end: usize = HEADER_SIZE + data[4] as usize;
        let email_end: usize = user_end + data[5] as usize;
        if email_end > data.len() {
            return None;
        }
        let user_id = match core::str::from_utf8(slice_subrange(data, HEADER_SIZE, user_end)) {
            Ok(text) => text,
            Err(_) => {
                return None;
            },
        };
        let email = match core::str::from_utf8(slice_subrange(data, user_end, email_end)) {
            Ok(text) => text,
            Err(_) => {
                return None;
            },
        };
        Some(Row { id, user_id: user_id.to_owned(), email: email.to_owned() })
    }

    /// Writes the row at the start of its slot and leaves the bytes behind it
    /// as they were.
    pub fn serialize(&self, data: &mut [u8])
        requires
            self@.fits(),
            old(data)@.len() >= ROW_SIZE,
        ensures
            final(data)@ == self@.encoded() + old(data)@.subrange(
                self@.encoded().len() as int,
                old(data)@.len() as int,
            ),
            decode(final(data)@) == Some(self@),
    {
        let user = self.user_id.as_str().as_bytes();
        let email = self.email.as_str().as_bytes();
        let user_len: usize = user.len();
        let email_len: usize = email.len();
        let ghost target = self@.encoded();
        data[0] = (self.id % 256) as u8;
        data[1] = (self.id / 256 % 256) as u8;
        data[2] = (self.id / 65536 % 256) as u8;
        data[3] = (self.id / 16777216) as u8;
        data[4] = user_len as u8;
        data[5] = email_len as u8;
        let mut i: usize = 0;
        while i < user_len
            invariant
                i <= user_len <= USERID_SIZE,
                email_len <= EMAIL_SIZE,
                user@ == self@.user_bytes(),
                email@ == self@.email_bytes(),
                user@.len() == user_len,
                email@.len() == email_len,
                target == self@.encoded(),
                data@.len() == old(data)@.len() >= ROW_SIZE,
                forall|k: int| 0 <= k < HEADER_SIZE + i ==> data@[k] == target[k],
                forall|k: int| HEADER_SIZE + i <= k < data@.len() ==> data@[k] == old(data)@[k],
            decreases user_len - i,
        {
            data[HEADER_SIZE + i] = user[i];
            i += 1;
        }
        let mut j: usize = 0;
        while j < email_len
            invariant
                j <= email_len <= EMAIL_SIZE,
                user_len <= USERID_SIZE,
                user@ == self@.user_bytes(),
                email@ == self@.email_bytes(),
                user@.len() == user_len,
                email@.len() == email_len,
                target == self@.encoded(),
                data@.len() == old(data)@.len() >= ROW_SIZE,
                forall|k: int| 0 <= k < HEADER_SIZE + user_len + j ==> data@[k] == target[k],
                forall|k: int|
                    HEADER_SIZE + user_len + j <= k < data@.len() ==> data@[k] == old(data)@[k],
            decreases email_len - j,
        {
            data[HEADER_SIZE + user_len + j] = email[j];
            j += 1;
        }
        proof {
            let tail = old(data)@.subrange(target.len() as int, old(data)@.len() as int);
            assert(data@ =~= target + tail);
            lemma_round_trip(self@, tail);
        }
    }
}

} // verus!
