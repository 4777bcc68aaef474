use snapshot_restore::codec::{decode, OpReader, Record, FILE_VERSION, MAGIC_MARKER};
use snapshot_restore::error::{ErrorKind, RestoreError};
use snapshot_restore::family::Family;
use snapshot_restore::writer::{encode, write_record};

fn refused(kind: ErrorKind, record: usize) -> Result<Vec<Record>, RestoreError> {
    Err(RestoreError { kind, record })
}

#[test]
fn header_constants() {
    assert_eq!(MAGIC_MARKER, 123);
    assert_eq!(FILE_VERSION, 1);
}

#[test]
fn header_is_checked_before_anything_else() {
    assert_eq!(decode(&[]), refused(ErrorKind::BadMagic, 0));
    assert_eq!(decode(&[0]), refused(ErrorKind::BadMagic, 0));
    assert_eq!(decode(&[1, 123]), refused(ErrorKind::BadMagic, 0));
    assert_eq!(decode(&[123]), refused(ErrorKind::BadVersion, 0));
    assert_eq!(decode(&[123, 2]), refused(ErrorKind::BadVersion, 0));
    assert_eq!(decode(&[123, 0, 0, 0]), refused(ErrorKind::BadVersion, 0));
    assert_eq!(decode(&[122, 1, 99, 99, 99]), refused(ErrorKind::BadMagic, 0));
    assert_eq!(decode(&[123, 1]), Ok(vec![]));
    assert!(OpReader::new(&[123, 1]).is_ok());
    assert_eq!(OpReader::new(&[123, 9]).err(), Some(ErrorKind::BadVersion));
}

#[test]
fn every_record_kind_is_read() {
    let data = [
        123, 1, // header
        0, 7, // family: directory
        3, 0, 0, 1, 2, // account 258
        4, 9, // collection 9
        5, 0xFF, 0xFF, 0xFF, 0xFE, // document
        1, 0, 0, 0, 2, b'k', b'1', 0, 0, 0, 3, b'v', b'a', b'l', // key and value
        2, 0, 0, 0, 1, b'x', // key only
        1, 0, 0, 0, 0, 0, 0, 0, 0, // empty key, empty value
    ];
    assert_eq!(
        decode(&data),
        Ok(vec![
            Record::Family(Family::Directory),
            Record::AccountId(258),
            Record::Collection(9),
            Record::DocumentId(0xFFFF_FFFE),
            Record::KeyValue(b"k1".to_vec(), b"val".to_vec()),
            Record::KeyOnly(b"x".to_vec()),
            Record::KeyValue(vec![], vec![]),
        ])
    );
}

#[test]
fn reader_yields_records_one_by_one() {
    let data = [123, 1, 4, 5, 2, 0, 0, 0, 1, 7];
    let mut reader = OpReader::new(&data).unwrap();
    assert_eq!(reader.next(), Ok(Some(Record::Collection(5))));
    assert_eq!(reader.next(), Ok(Some(Record::KeyOnly(vec![7]))));
    assert_eq!(reader.next(), Ok(None));
    assert_eq!(reader.next(), Ok(None));
}

#[test]
fn every_family_tag() {
    let families = [
        Family::Property,
        Family::TermIndex,
        Family::Acl,
        Family::Blob,
        Family::Config,
        Family::LookupValue,
        Family::LookupCounter,
        Family::Directory,
        Family::Queue,
        Family::Index,
        Family::Bitmap,
        Family::Log,
    ];
    for (tag, family) in families.iter().enumerate() {
        assert_eq!(Family::try_from(tag as u8), Ok(*family));
        assert_eq!(family.tag(), tag as u8);
        assert_eq!(decode(&[123, 1, 0, tag as u8]), Ok(vec![Record::Family(*family)]));
    }
    for tag in 12..=255u8 {
        assert_eq!(Family::try_from(tag), Err(ErrorKind::UnknownFamily(tag)));
    }
    assert_eq!(decode(&[123, 1, 0, 12]), refused(ErrorKind::UnknownFamily(12), 0));
}

#[test]
fn unknown_record_tag_is_refused() {
    assert_eq!(decode(&[123, 1, 6]), refused(ErrorKind::UnknownRecord(6), 0));
    assert_eq!(decode(&[123, 1, 4, 1, 255, 0]), refused(ErrorKind::UnknownRecord(255), 1));
}

#[test]
fn stream_may_end_only_between_records() {
    // a family record without its tag
    assert_eq!(decode(&[123, 1, 0]), refused(ErrorKind::Truncated, 0));
    // an id cut short
    assert_eq!(decode(&[123, 1, 3, 0, 0, 0]), refused(ErrorKind::Truncated, 0));
    assert_eq!(decode(&[123, 1, 5]), refused(ErrorKind::Truncated, 0));
    // a collection without its byte
    assert_eq!(decode(&[123, 1, 4, 1, 4]), refused(ErrorKind::Truncated, 1));
    // a length cut short
    assert_eq!(decode(&[123, 1, 2, 0, 0]), refused(ErrorKind::Truncated, 0));
    // a block shorter than its length
    assert_eq!(decode(&[123, 1, 2, 0, 0, 0, 2, 1]), refused(ErrorKind::Truncated, 0));
    // a key without its value
    assert_eq!(decode(&[123, 1, 1, 0, 0, 0, 1, 1]), refused(ErrorKind::Truncated, 0));
    assert_eq!(
        decode(&[123, 1, 1, 0, 0, 0, 1, 1, 0, 0, 0, 1]),
        refused(ErrorKind::Truncated, 0)
    );
    // a length far beyond the file
    assert_eq!(
        decode(&[123, 1, 2, 0xFF, 0xFF, 0xFF, 0xFF, 1]),
        refused(ErrorKind::Truncated, 0)
    );
}

#[test]
fn written_records_are_read_back() {
    let records = vec![
        Record::Family(Family::Log),
        Record::AccountId(u32::MAX),
        Record::Collection(0),
        Record::DocumentId(1),
        Record::KeyValue(vec![1, 2, 3], vec![]),
        Record::KeyOnly(vec![]),
        Record::KeyValue(vec![0; 300], vec![9; 70_000]),
        Record::Family(Family::Property),
    ];
    let bytes = encode(&records).unwrap();
    assert_eq!(&bytes[..4], &[123, 1, 0, 11]);
    assert_eq!(decode(&bytes), Ok(records.clone()));

    // and the bytes of a file are those of its records
    assert_eq!(encode(&decode(&bytes).unwrap()), Some(bytes));
}

#[test]
fn record_bytes_are_exact() {
    let mut out = vec![0xEE];
    assert!(write_record(&mut out, &Record::KeyValue(vec![0xAA], vec![0xBB, 0xCC])));
    assert_eq!(out, vec![0xEE, 1, 0, 0, 0, 1, 0xAA, 0, 0, 0, 2, 0xBB, 0xCC]);
    let mut out = Vec::new();
    assert!(write_record(&mut out, &Record::KeyOnly(vec![5, 6])));
    assert!(write_record(&mut out, &Record::AccountId(0x0A0B0C0D)));
    assert!(write_record(&mut out, &Record::DocumentId(1)));
    assert!(write_record(&mut out, &Record::Collection(200)));
    assert!(write_record(&mut out, &Record::Family(Family::Bitmap)));
    assert_eq!(
        out,
        vec![2, 0, 0, 0, 2, 5, 6, 3, 0x0A, 0x0B, 0x0C, 0x0D, 5, 0, 0, 0, 1, 4, 200, 0, 10]
    );
}
