use snapshot_restore::error::ErrorKind;
use snapshot_restore::family::Family;
use snapshot_restore::interpret::{interpret, interpret_decoded, Context, Effect};
use snapshot_restore::ops::{
    BitmapClass, BlobOp, DirectoryClass, LookupClass, Operation, QueueClass, Scope, TagValue,
    ValueClass, ValueOp,
};
use snapshot_restore::registry::{
    decode_bitmap_key, decode_directory_key, decode_queue_key, encode_bitmap_key,
    encode_directory_key, encode_queue_key, BLOB_HASH_LEN, COLLECTION_MAILBOX,
    PROPERTY_EMAIL_IDS,
};

fn scope(account_id: u32, collection: u8, document_id: u32) -> Scope {
    Scope { account_id, collection, document_id }
}

fn ctx(family: Family, scope: Scope) -> Context {
    Context { family: Some(family), scope }
}

fn run(family: Family, key: &[u8], value: &[u8]) -> Result<Effect, ErrorKind> {
    interpret(&ctx(family, scope(1, 2, 3)), key.to_vec(), value.to_vec())
}

fn value(class: ValueClass, bytes: &[u8]) -> Result<Effect, ErrorKind> {
    Ok(Effect::One(Operation::Value { class, op: ValueOp::Overwrite(bytes.to_vec()) }))
}

fn delta(class: ValueClass, by: i64) -> Result<Effect, ErrorKind> {
    Ok(Effect::One(Operation::Value { class, op: ValueOp::Add(by) }))
}

#[test]
fn key_before_any_family_is_refused() {
    let none = Context { family: None, scope: scope(1, 2, 3) };
    assert_eq!(interpret(&none, vec![1], vec![2]), Err(ErrorKind::MissingFamily));
    assert_eq!(Context::initial().family, None);
    assert_eq!(Context::initial().scope, scope(u32::MAX, u8::MAX, u32::MAX));
}

#[test]
fn property_is_overwritten() {
    assert_eq!(run(Family::Property, &[17], b"abc"), value(ValueClass::Property(17), b"abc"));
    assert_eq!(run(Family::Property, &[17, 99, 98], b""), value(ValueClass::Property(17), b""));
    assert_eq!(run(Family::Property, &[], b"abc"), Err(ErrorKind::MalformedKey));
    // the id counter's field in another collection is a plain property
    assert_eq!(
        run(Family::Property, &[PROPERTY_EMAIL_IDS], b"not a counter"),
        value(ValueClass::Property(PROPERTY_EMAIL_IDS), b"not a counter")
    );
}

#[test]
fn mailbox_id_counter_is_a_delta() {
    let mailbox = ctx(Family::Property, scope(1, COLLECTION_MAILBOX, 3));
    assert_eq!(
        interpret(&mailbox, vec![PROPERTY_EMAIL_IDS], 77i64.to_le_bytes().to_vec()),
        delta(ValueClass::Property(PROPERTY_EMAIL_IDS), 77)
    );
    assert_eq!(
        interpret(&mailbox, vec![PROPERTY_EMAIL_IDS], vec![1, 2, 3]),
        Err(ErrorKind::MalformedValue)
    );
    assert_eq!(
        interpret(&mailbox, vec![PROPERTY_EMAIL_IDS + 1], vec![1, 2, 3]),
        value(ValueClass::Property(PROPERTY_EMAIL_IDS + 1), &[1, 2, 3])
    );
    assert_eq!(COLLECTION_MAILBOX, 1);
    assert_eq!(PROPERTY_EMAIL_IDS, 84);
}

#[test]
fn term_index_is_stored_under_its_key() {
    assert_eq!(
        run(Family::TermIndex, b"index bytes", b"ignored"),
        value(ValueClass::TermIndex, b"index bytes")
    );
    assert_eq!(run(Family::TermIndex, b"", b""), value(ValueClass::TermIndex, b""));
}

#[test]
fn acl_key_is_the_grantee() {
    assert_eq!(run(Family::Acl, &[0, 0, 1, 0], &[7]), value(ValueClass::Acl(256), &[7]));
    assert_eq!(run(Family::Acl, &[0, 0, 1, 0, 55], &[7]), value(ValueClass::Acl(256), &[7]));
    assert_eq!(run(Family::Acl, &[0, 0, 1], &[7]), Err(ErrorKind::MalformedKey));
}

#[test]
fn blob_key_is_a_hash() {
    assert_eq!(BLOB_HASH_LEN, 32);
    let hash = vec![3u8; 32];
    assert_eq!(
        run(Family::Blob, &hash, b"data"),
        value(ValueClass::Blob(BlobOp::Link { hash: hash.clone() }), b"")
    );
    assert_eq!(run(Family::Blob, &hash[..31], b"data"), Err(ErrorKind::MalformedKey));
    assert_eq!(run(Family::Blob, &[3u8; 33], b"data"), Err(ErrorKind::MalformedKey));

    let commit = Operation::Value {
        class: ValueClass::Blob(BlobOp::Commit { hash: hash.clone() }),
        op: ValueOp::Overwrite(vec![]),
    };
    for unset in [scope(u32::MAX, 2, 3), scope(1, 2, u32::MAX), scope(u32::MAX, 2, u32::MAX)] {
        assert_eq!(
            interpret(&ctx(Family::Blob, unset), hash.clone(), b"data".to_vec()),
            Ok(Effect::Blob { key: hash.clone(), data: b"data".to_vec(), commit: commit.clone() })
        );
    }
    // the collection plays no part
    assert_eq!(
        interpret(&ctx(Family::Blob, scope(1, u8::MAX, 3)), hash.clone(), vec![]),
        value(ValueClass::Blob(BlobOp::Link { hash }), b"")
    );
}

#[test]
fn config_and_lookup_keys_are_raw() {
    assert_eq!(run(Family::Config, b"a.b", b"c"), value(ValueClass::Config(b"a.b".to_vec()), b"c"));
    assert_eq!(run(Family::Config, b"", b""), value(ValueClass::Config(vec![]), b""));
    assert_eq!(
        run(Family::LookupValue, b"k", b"v"),
        value(ValueClass::Lookup(LookupClass::Key(b"k".to_vec())), b"v")
    );
    assert_eq!(
        run(Family::LookupCounter, b"k", &(-5i64).to_le_bytes()),
        delta(ValueClass::Lookup(LookupClass::Counter(b"k".to_vec())), -5)
    );
    assert_eq!(run(Family::LookupCounter, b"k", b"v"), Err(ErrorKind::MalformedValue));
}

#[test]
fn directory_subtypes() {
    let dir = |class| ValueClass::Directory(class);
    assert_eq!(
        run(Family::Directory, b"\x00john", b"1"),
        value(dir(DirectoryClass::NameToId(b"john".to_vec())), b"1")
    );
    assert_eq!(
        run(Family::Directory, b"\x01j@x.org", b"1"),
        value(dir(DirectoryClass::EmailToId(b"j@x.org".to_vec())), b"1")
    );
    assert_eq!(
        run(Family::Directory, &[2, 0xAC, 0x02], b"p"),
        value(dir(DirectoryClass::Principal(300)), b"p")
    );
    assert_eq!(
        run(Family::Directory, b"\x03x.org", b""),
        value(dir(DirectoryClass::Domain(b"x.org".to_vec())), b"")
    );
    assert_eq!(
        run(Family::Directory, &[4, 9], &1024i64.to_le_bytes()),
        delta(dir(DirectoryClass::UsedQuota(9)), 1024)
    );
    assert_eq!(
        run(Family::Directory, &[5, 0, 0, 0, 1, 0, 0, 0, 2], b"m"),
        value(dir(DirectoryClass::MemberOf { principal_id: 1, member_of: 2 }), b"m")
    );
    assert_eq!(
        run(Family::Directory, &[6, 0, 0, 0, 3, 0, 0, 1, 0], b"m"),
        value(dir(DirectoryClass::Members { principal_id: 3, has_member: 256 }), b"m")
    );
    assert_eq!(run(Family::Directory, &[0], b""), value(dir(DirectoryClass::NameToId(vec![])), b""));
}

#[test]
fn directory_defects() {
    assert_eq!(run(Family::Directory, &[], b""), Err(ErrorKind::MalformedKey));
    assert_eq!(run(Family::Directory, &[7, 1, 2], b""), Err(ErrorKind::UnknownSubtype(7)));
    assert_eq!(run(Family::Directory, &[255], b""), Err(ErrorKind::UnknownSubtype(255)));
    assert_eq!(run(Family::Directory, &[2], b""), Err(ErrorKind::MalformedKey));
    assert_eq!(run(Family::Directory, &[2, 0x80], b""), Err(ErrorKind::MalformedKey));
    assert_eq!(run(Family::Directory, &[4], &[0; 8]), Err(ErrorKind::MalformedKey));
    assert_eq!(run(Family::Directory, &[4, 1], &[0; 7]), Err(ErrorKind::MalformedValue));
    assert_eq!(run(Family::Directory, &[4, 1], &[]), Err(ErrorKind::MalformedValue));
    assert_eq!(run(Family::Directory, &[5, 0, 0, 0, 1, 0, 0, 0], b""), Err(ErrorKind::MalformedKey));
    assert_eq!(run(Family::Directory, &[6, 0, 0, 0], b""), Err(ErrorKind::MalformedKey));
}

#[test]
fn queue_subtypes() {
    let mut message = vec![0];
    message.extend_from_slice(&0x0102_0304_0506_0708u64.to_be_bytes());
    assert_eq!(
        run(Family::Queue, &message, b"m"),
        value(ValueClass::Queue(QueueClass::Message(0x0102_0304_0506_0708)), b"m")
    );
    let mut event = vec![1];
    event.extend_from_slice(&5u64.to_be_bytes());
    event.extend_from_slice(&6u64.to_be_bytes());
    assert_eq!(
        run(Family::Queue, &event, b"e"),
        value(ValueClass::Queue(QueueClass::MessageEvent { due: 5, queue_id: 6 }), b"e")
    );
    assert_eq!(run(Family::Queue, &event[..16], b"e"), Err(ErrorKind::MalformedKey));
    assert_eq!(run(Family::Queue, &message[..8], b"e"), Err(ErrorKind::MalformedKey));
    assert_eq!(run(Family::Queue, &[2], b"e"), Err(ErrorKind::UnknownSubtype(2)));
    assert_eq!(run(Family::Queue, &[], b"e"), Err(ErrorKind::MalformedKey));
}

#[test]
fn index_key_is_field_and_key() {
    assert_eq!(
        run(Family::Index, &[8, 1, 2, 3], b"ignored"),
        Ok(Effect::One(Operation::Index { field: 8, key: vec![1, 2, 3], set: true }))
    );
    assert_eq!(
        run(Family::Index, &[8], b""),
        Ok(Effect::One(Operation::Index { field: 8, key: vec![], set: true }))
    );
    assert_eq!(run(Family::Index, &[], b""), Err(ErrorKind::MalformedKey));
}

#[test]
fn log_key_is_the_change_id() {
    assert_eq!(
        run(Family::Log, &[0, 0, 0, 0, 0, 0, 1, 1], b"changes"),
        Ok(Effect::One(Operation::Log { change_id: 257, collection: 2, set: b"changes".to_vec() }))
    );
    assert_eq!(run(Family::Log, &[0, 0, 0, 0, 0, 0, 1], b""), Err(ErrorKind::MalformedKey));
}

#[test]
fn bitmap_classes() {
    let members = |class, ids: &[u32]| Ok(Effect::Members { class, ids: ids.to_vec() });
    let at = ctx(Family::Bitmap, scope(1, 2, 3));
    let decoded = |key: &[u8], ids: &[u32]| {
        interpret_decoded(&at, key.to_vec(), b"any".to_vec(), Some(ids.to_vec()))
    };
    assert_eq!(decoded(&[0], &[3, 7, 42]), members(BitmapClass::DocumentIds, &[3, 7, 42]));
    assert_eq!(decoded(&[0], &[]), members(BitmapClass::DocumentIds, &[]));
    assert_eq!(
        decoded(&[1, 9, 0, 0, 0, 5], &[1]),
        members(BitmapClass::Tag { field: 9, value: TagValue::Id(5) }, &[1])
    );
    assert_eq!(
        decoded(&[2, 9, b'h', b'i'], &[1]),
        members(BitmapClass::Tag { field: 9, value: TagValue::Text(b"hi".to_vec()) }, &[1])
    );
    assert_eq!(
        decoded(&[3, 9, 200], &[1]),
        members(BitmapClass::Tag { field: 9, value: TagValue::Static(200) }, &[1])
    );
    assert_eq!(
        decoded(&[4, 9, 5, 1, 2, 3, 4, 5, 6, 7, 8, 99], &[1, 2]),
        members(BitmapClass::Text { field: 9, len: 5, hash: vec![1, 2, 3, 4, 5, 6, 7, 8] }, &[1, 2])
    );
}

#[test]
fn bitmap_defects() {
    let at = ctx(Family::Bitmap, scope(1, 2, 3));
    let decoded = |key: &[u8]| interpret_decoded(&at, key.to_vec(), vec![], Some(vec![1]));
    assert_eq!(decoded(&[]), Err(ErrorKind::MalformedKey));
    assert_eq!(decoded(&[5]), Err(ErrorKind::UnknownSubtype(5)));
    assert_eq!(decoded(&[1, 9, 0, 0, 0]), Err(ErrorKind::MalformedKey));
    assert_eq!(decoded(&[1]), Err(ErrorKind::MalformedKey));
    assert_eq!(decoded(&[2]), Err(ErrorKind::MalformedKey));
    assert_eq!(decoded(&[3, 9]), Err(ErrorKind::MalformedKey));
    assert_eq!(decoded(&[4, 9, 5, 1, 2, 3, 4, 5, 6, 7]), Err(ErrorKind::MalformedKey));
    // a value that is no bitmap is refused before the key is looked at
    assert_eq!(
        interpret_decoded(&at, vec![9, 9], vec![], None),
        Err(ErrorKind::MalformedValue)
    );
    assert_eq!(interpret(&at, vec![0], vec![0xDE, 0xAD]), Err(ErrorKind::MalformedValue));
    assert_eq!(interpret(&at, vec![0], vec![]), Err(ErrorKind::MalformedValue));
}

#[test]
fn keys_are_written_as_they_are_read() {
    let directory = [
        DirectoryClass::NameToId(b"name".to_vec()),
        DirectoryClass::EmailToId(vec![]),
        DirectoryClass::Principal(0),
        DirectoryClass::Principal(u32::MAX),
        DirectoryClass::Domain(b"d".to_vec()),
        DirectoryClass::UsedQuota(16_384),
        DirectoryClass::MemberOf { principal_id: 1, member_of: u32::MAX },
        DirectoryClass::Members { principal_id: 0x0102_0304, has_member: 5 },
    ];
    for class in directory {
        assert_eq!(decode_directory_key(&encode_directory_key(&class)), Ok(class));
    }
    assert_eq!(encode_directory_key(&DirectoryClass::UsedQuota(300)), vec![4, 0xAC, 0x02]);
    assert_eq!(
        encode_directory_key(&DirectoryClass::MemberOf { principal_id: 1, member_of: 2 }),
        vec![5, 0, 0, 0, 1, 0, 0, 0, 2]
    );

    for class in [
        QueueClass::Message(u64::MAX),
        QueueClass::MessageEvent { due: 1, queue_id: 0x0102_0304_0506_0708 },
    ] {
        assert_eq!(decode_queue_key(&encode_queue_key(&class)), Ok(class));
    }
    assert_eq!(encode_queue_key(&QueueClass::Message(1)), vec![0, 0, 0, 0, 0, 0, 0, 0, 1]);

    let bitmaps = [
        BitmapClass::DocumentIds,
        BitmapClass::Tag { field: 1, value: TagValue::Id(70_000) },
        BitmapClass::Tag { field: 2, value: TagValue::Text(b"tag".to_vec()) },
        BitmapClass::Tag { field: 3, value: TagValue::Static(4) },
        BitmapClass::Text { field: 5, len: 3, hash: vec![b'a', b'b', b'c', 0, 0, 0, 0, 0] },
    ];
    for class in bitmaps {
        assert_eq!(class.duplicate(), class);
        assert_eq!(decode_bitmap_key(&encode_bitmap_key(&class)), Ok(class));
    }
    assert_eq!(
        encode_bitmap_key(&BitmapClass::Tag { field: 7, value: TagValue::Id(1) }),
        vec![1, 7, 0, 0, 0, 1]
    );
}
