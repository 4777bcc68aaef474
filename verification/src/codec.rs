//! The record stream of a snapshot file: a two-byte header, followed by
//! tagged records until the end of the file.
//!
//! A record is a tag byte and its fields. Ids are fixed-width big-endian
//! integers; keys and values are byte blocks behind a four-byte big-endian
//! length.

use crate::bytes::{be_u32_at, read_be_u32};
use crate::error::{ErrorKind, RestoreError};
use crate::family::Family;
use crate::ops::{lemma_views_push, views};
use vstd::prelude::*;
use vstd::slice::{slice_subrange, slice_to_vec};

verus! {

/// The first byte of every snapshot file.
pub const MAGIC_MARKER: u8 = 123;

/// The second byte of every snapshot file: the only format version read.
pub const FILE_VERSION: u8 = 1;

pub const TAG_FAMILY: u8 = 0;

pub const TAG_KEY_VALUE: u8 = 1;

pub const TAG_KEY_ONLY: u8 = 2;

pub const TAG_ACCOUNT_ID: u8 = 3;

pub const TAG_COLLECTION: u8 = 4;

pub const TAG_DOCUMENT_ID: u8 = 5;

/// One record of a snapshot.
#[derive(Clone, Debug, PartialEq, Eq)]
pub enum Record {
    /// The records that follow belong to this family.
    Family(Family),
    /// The records that follow belong to this account.
    AccountId(u32),
    /// The records that follow belong to this collection.
    Collection(u8),
    /// The records that follow belong to this document.
    DocumentId(u32),
    /// A key and its value.
    KeyValue(Vec<u8>, Vec<u8>),
    /// A key whose value is empty.
    KeyOnly(Vec<u8>),
}

pub enum RecordView {
    Family(Family),
    AccountId(u32),
    Collection(u8),
    DocumentId(u32),
    KeyValue(Seq<u8>, Seq<u8>),
    KeyOnly(Seq<u8>),
}

impl View for Record {
    type V = RecordView;

    open spec fn view(&self) -> RecordView {
        match *self {
            Record::Family(f) => RecordView::Family(f),
            Record::AccountId(id) => RecordView::AccountId(id),
            Record::Collection(c) => RecordView::Collection(c),
            Record::DocumentId(id) => RecordView::DocumentId(id),
            Record::KeyValue(k, v) => RecordView::KeyValue(k@, v@),
            Record::KeyOnly(k) => RecordView::KeyOnly(k@),
        }
    }
}

/// What stands at a position of the stream.
pub enum Parsed {
    /// The stream ends exactly here.
    End,
    /// A whole record, and the position after it.
    Item { record: RecordView, next: int },
    /// Something that is no record.
    Fail(ErrorKind),
}

/// The defect of the header of `s`, if it has one. Both bytes must be
/// present and equal to the constants.
pub open spec fn header_defect(s: Seq<u8>) -> Option<ErrorKind> {
    if s.len() < 1 || s[0] != MAGIC_MARKER {
        Some(ErrorKind::BadMagic)
    } else if s.len() < 2 || s[1] != FILE_VERSION {
        Some(ErrorKind::BadVersion)
    } else {
        None
    }
}

/// The length-prefixed block at `at`, and the position after it.
pub open spec fn sized_bytes_at(s: Seq<u8>, at: int) -> Option<(Seq<u8>, int)> {
    match be_u32_at(s, at) {
        Some(len) => if at + 4 + len <= s.len() {
            Some((s.subrange(at + 4, at + 4 + len), at + 4 + len))
        } else {
            None
        },
        None => None,
    }
}

/// The record that starts at `pos`. The end of the stream is clean only
/// where a tag byte would stand; a record that has begun must be complete.
pub open spec fn parse_record(s: Seq<u8>, pos: int) -> Parsed {
    if pos < 0 || pos >= s.len() {
        Parsed::End
    } else if s[pos] == TAG_FAMILY {
        if pos + 1 >= s.len() {
            Parsed::Fail(ErrorKind::Truncated)
        } else {
            match Family::from_tag(s[pos + 1]) {
                Some(f) => Parsed::Item { record: RecordView::Family(f), next: pos + 2 },
                None => Parsed::Fail(ErrorKind::UnknownFamily(s[pos + 1])),
            }
        }
    } else if s[pos] == TAG_KEY_VALUE {
        match sized_bytes_at(s, pos + 1) {
            Some((key, after_key)) => match sized_bytes_at(s, after_key) {
                Some((value, next)) => Parsed::Item {
                    record: RecordView::KeyValue(key, value),
                    next,
                },
                None => Parsed::Fail(ErrorKind::Truncated),
            },
            None => Parsed::Fail(ErrorKind::Truncated),
        }
    } else if s[pos] == TAG_KEY_ONLY {
        match sized_bytes_at(s, pos + 1) {
            Some((key, next)) => Parsed::Item { record: RecordView::KeyOnly(key), next },
            None => Parsed::Fail(ErrorKind::Truncated),
        }
    } else if s[pos] == TAG_ACCOUNT_ID {
        match be_u32_at(s, pos + 1) {
            Some(id) => Parsed::Item { record: RecordView::AccountId(id), next: pos + 5 },
            None => Parsed::Fail(ErrorKind::Truncated),
        }
    } else if s[pos] == TAG_COLLECTION {
        if pos + 1 >= s.len() {
            Parsed::Fail(ErrorKind::Truncated)
        } else {
            Parsed::Item { record: RecordView::Collection(s[pos + 1]), next: pos + 2 }
        }
    } else if s[pos] == TAG_DOCUMENT_ID {
        match be_u32_at(s, pos + 1) {
            Some(id) => Parsed::Item { record: RecordView::DocumentId(id), next: pos + 5 },
            None => Parsed::Fail(ErrorKind::Truncated),
        }
    } else {
        Parsed::Fail(ErrorKind::UnknownRecord(s[pos]))
    }
}

/// A record ends after the position at which it starts, and inside the
/// stream.
pub proof fn lemma_record_advances(s: Seq<u8>, pos: int)
    ensures
        parse_record(s, pos) matches Parsed::Item { next, .. } ==> pos < next <= s.len(),
{
}

/// The records of `s` from `pos` on, where `index` records stand before
/// `pos`. The first defect ends the parse and is reported with the index of
/// its record.
pub open spec fn parse_records(s: Seq<u8>, pos: int, index: int) -> Result<
    Seq<RecordView>,
    RestoreError,
>
    decreases s.len() - pos,
{
    match parse_record(s, pos) {
        Parsed::End => Ok(Seq::empty()),
        Parsed::Fail(kind) => Err(RestoreError { kind, record: index as usize }),
        Parsed::Item { record, next } => if pos < next {
            match parse_records(s, next, index + 1) {
                Ok(rest) => Ok(seq![record] + rest),
                Err(e) => Err(e),
            }
        } else {
            Ok(Seq::empty())
        },
    }
}

/// The records of a snapshot file, or the first defect of the file.
pub open spec fn parse_snapshot(s: Seq<u8>) -> Result<Seq<RecordView>, RestoreError> {
    match header_defect(s) {
        Some(kind) => Err(RestoreError { kind, record: 0 }),
        None => parse_records(s, 2, 0),
    }
}

/// A result of records, with the records before it put in front.
pub open spec fn preceded_by(before: Seq<RecordView>, r: Result<Seq<RecordView>, RestoreError>)
    -> Result<Seq<RecordView>, RestoreError> {
    match r {
        Ok(rest) => Ok(before + rest),
        Err(e) => Err(e),
    }
}

/// A cursor over the bytes of a snapshot file whose header has been
/// accepted.
pub struct OpReader<'a> {
    data: &'a [u8],
    pos: usize,
}

impl<'a> OpReader<'a> {
    #[verifier::type_invariant]
    spec fn inv(self) -> bool {
        2 <= self.pos <= self.data@.len()
    }

    /// The bytes of the whole file.
    pub closed spec fn bytes(self) -> Seq<u8> {
        self.data@
    }

    /// The position of the next byte to read.
    pub closed spec fn position(self) -> int {
        self.pos as int
    }

    /// Checks the header and places the cursor behind it.
    pub fn new(data: &'a [u8]) -> (r: Result<OpReader<'a>, ErrorKind>)
        ensures
            match r {
                Ok(reader) => header_defect(data@) is None && reader.bytes() == data@
                    && reader.position() == 2,
                Err(kind) => header_defect(data@) == Some(kind),
            },
    {
        if data.len() < 1 || data[0] != MAGIC_MARKER {
            return Err(ErrorKind::BadMagic);
        }
        if data.len() < 2 || data[1] != FILE_VERSION {
            return Err(ErrorKind::BadVersion);
        }
        Ok(OpReader { data, pos: 2 })
    }

    /// Reads the next record. `Ok(None)` is the clean end of the stream.
    pub fn next(&mut self) -> (r: Result<Option<Record>, ErrorKind>)
        ensures
            final(self).bytes() == old(self).bytes(),
            2 <= old(self).position() <= final(self).position() <= old(self).bytes().len(),
            match parse_record(old(self).bytes(), old(self).position()) {
                Parsed::End => r matches Ok(None) && final(self).position() == old(
                    self,
                ).position(),
                Parsed::Fail(kind) => r == Err::<Option<Record>, ErrorKind>(kind),
                Parsed::Item { record, next } => r matches Ok(Some(rec)) && rec@ == record
                    && final(self).position() == next,
            },
    {
        proof {
            use_type_invariant(&*self);
        }
        if self.pos >= self.data.len() {
            return Ok(None);
        }
        let tag: u8 = self.data[self.pos];
        self.pos = self.pos + 1;
        if tag == TAG_FAMILY {
            match self.expect_u8() {
                Some(byte) => match Family::try_from(byte) {
                    Ok(f) => Ok(Some(Record::Family(f))),
                    Err(kind) => Err(kind),
                },
                None => Err(ErrorKind::Truncated),
            }
        } else if tag == TAG_KEY_VALUE {
            match self.expect_sized_bytes() {
                Some(key) => match self.expect_sized_bytes() {
                    Some(value) => Ok(Some(Record::KeyValue(key, value))),
                    None => Err(ErrorKind::Truncated),
                },
                None => Err(ErrorKind::Truncated),
            }
        } else if tag == TAG_KEY_ONLY {
            match self.expect_sized_bytes() {
                Some(key) => Ok(Some(Record::KeyOnly(key))),
                None => Err(ErrorKind::Truncated),
            }
        } else if tag == TAG_ACCOUNT_ID {
            match self.expect_u32_be() {
                Some(id) => Ok(Some(Record::AccountId(id))),
                None => Err(ErrorKind::Truncated),
            }
        } else if tag == TAG_COLLECTION {
            match self.expect_u8() {
                Some(c) => Ok(Some(Record::Collection(c))),
                None => Err(ErrorKind::Truncated),
            }
        } else if tag == TAG_DOCUMENT_ID {
            match self.expect_u32_be() {
                Some(id) => Ok(Some(Record::DocumentId(id))),
                None => Err(ErrorKind::Truncated),
            }
        } else {
            Err(ErrorKind::UnknownRecord(tag))
        }
    }

    /// Reads one byte, if one is left.
    fn expect_u8(&mut self) -> (r: Option<u8>)
        ensures
            final(self).bytes() == old(self).bytes(),
            old(self).position() <= final(self).position() <= old(self).bytes().len(),
            old(self).position() < old(self).bytes().len() ==> r == Some(
                old(self).bytes()[old(self).position()],
            ) && final(self).position() == old(self).position() + 1,
            old(self).position() >= old(self).bytes().len() ==> r is None,
    {
        proof {
            use_type_invariant(&*self);
        }
        if self.pos >= self.data.len() {
            return None;
        }
        let byte: u8 = self.data[self.pos];
        self.pos = self.pos + 1;
        Some(byte)
    }

    /// Reads a big-endian `u32`, if four bytes are left.
    fn expect_u32_be(&mut self) -> (r: Option<u32>)
        ensures
            final(self).bytes() == old(self).bytes(),
            old(self).position() <= final(self).position() <= old(self).bytes().len(),
            r == be_u32_at(old(self).bytes(), old(self).position()),
            r is Some ==> final(self).position() == old(self).position() + 4,
    {
        proof {
            use_type_invariant(&*self);
        }
        let total: usize = self.data.len();
        match read_be_u32(self.data, self.pos) {
            Some(v) => {
                assert(self.pos + 4 <= total);
                self.pos = self.pos + 4;
                Some(v)
            },
            None => None,
        }
    }

    /// Reads a length and the block of that length, if the stream holds
    /// both.
    fn expect_sized_bytes(&mut self) -> (r: Option<Vec<u8>>)
        ensures
            final(self).bytes() == old(self).bytes(),
            old(self).position() <= final(self).position() <= old(self).bytes().len(),
            match sized_bytes_at(old(self).bytes(), old(self).position()) {
                Some((block, next)) => r matches Some(v) && v@ == block && final(self).position()
                    == next,
                None => r is None,
            },
    {
        proof {
            use_type_invariant(&*self);
        }
        let total: usize = self.data.len();
        match read_be_u32(self.data, self.pos) {
            Some(len) => {
                assert(self.pos + 4 <= total);
                let start: usize = self.pos + 4;
                if len as usize > total - start {
                    return None;
                }
                let end: usize = start + len as usize;
                let block = slice_to_vec(slice_subrange(self.data, start, end));
                self.pos = end;
                Some(block)
            },
            None => None,
        }
    }
}

/// A result of executable records, seen through their views.
pub open spec fn lift_records(r: Result<Vec<Record>, RestoreError>) -> Result<
    Seq<RecordView>,
    RestoreError,
> {
    match r {
        Ok(records) => Ok(views(records@)),
        Err(e) => Err(e),
    }
}

/// Reads a whole snapshot file: the header is checked first, and records
/// are read until the stream ends at a record boundary.
pub fn decode(data: &[u8]) -> (r: Result<Vec<Record>, RestoreError>)
    ensures
        lift_records(r) == parse_snapshot(data@),
{
    let mut reader = match OpReader::new(data) {
        Ok(reader) => reader,
        Err(kind) => {
            return Err(RestoreError { kind, record: 0 });
        },
    };
    let mut records: Vec<Record> = Vec::new();
    proof {
        let rest = parse_records(data@, 2, 0);
        if rest is Ok {
            assert(views(records@) + rest->Ok_0 =~= rest->Ok_0);
        }
    }
    loop
        invariant
            reader.bytes() == data@,
            2 <= reader.position() <= data@.len(),
            records@.len() <= reader.position(),
            parse_snapshot(data@) == preceded_by(
                views(records@),
                parse_records(data@, reader.position(), records@.len() as int),
            ),
        decreases data@.len() - reader.position(),
    {
        let ghost before = views(records@);
        let ghost pos = reader.position();
        let ghost index = records@.len() as int;
        proof {
            lemma_record_advances(data@, pos);
        }
        match reader.next() {
            Ok(Some(record)) => {
                proof {
                    lemma_views_push(records@, record);
                    let rest = parse_records(data@, reader.position(), index + 1);
                    if rest is Ok {
                        assert(before + (seq![record@] + rest->Ok_0) =~= before.push(record@)
                            + rest->Ok_0);
                    }
                }
                records.push(record);
            },
            Ok(None) => {
                assert(before + Seq::<RecordView>::empty() =~= before);
                return Ok(records);
            },
            Err(kind) => {
                return Err(RestoreError { kind, record: records.len() });
            },
        }
    }
}

} // verus!
