use snapshot_restore::batch::{flatten, BatchOp};
use snapshot_restore::codec::{decode, Record};
use snapshot_restore::engine::{replay, restore_file, Action};
use snapshot_restore::export::{describe, emit, export, write_snapshot, Entry};
use snapshot_restore::family::Family;
use snapshot_restore::interpret::Context;
use snapshot_restore::ops::{
    BitmapClass, BlobOp, DirectoryClass, LookupClass, Operation, QueueClass, Scope, ScopedOp,
    ValueClass, ValueOp,
};
use snapshot_restore::writer::encode;

fn scope(account_id: u32, collection: u8, document_id: u32) -> Scope {
    Scope { account_id, collection, document_id }
}

fn entry(family: Family, scope: Scope, key: &[u8], value: &[u8]) -> Entry {
    Entry { family, scope, key: key.to_vec(), value: value.to_vec() }
}

fn set(class: ValueClass, value: &[u8]) -> Operation {
    Operation::Value { class, op: ValueOp::Overwrite(value.to_vec()) }
}

fn add(class: ValueClass, by: i64) -> Operation {
    Operation::Value { class, op: ValueOp::Add(by) }
}

#[test]
fn context_records_are_written_only_on_change() {
    let unset = scope(u32::MAX, u8::MAX, u32::MAX);
    let records = export(vec![
        entry(Family::Config, unset, b"a", b"1"),
        entry(Family::Config, unset, b"b", b""),
        entry(Family::Property, scope(1, 0, 7), &[3], b"x"),
        entry(Family::Property, scope(1, 0, 8), &[3], b"y"),
        entry(Family::Property, scope(2, 0, 8), &[3], b"z"),
        entry(Family::Acl, scope(2, 1, 8), &[0, 0, 0, 9], b"r"),
        entry(Family::Acl, scope(2, 1, u32::MAX), &[0, 0, 0, 9], b"r"),
    ]);
    assert_eq!(
        records,
        vec![
            Record::Family(Family::Config),
            Record::KeyValue(b"a".to_vec(), b"1".to_vec()),
            Record::KeyOnly(b"b".to_vec()),
            Record::Family(Family::Property),
            Record::AccountId(1),
            Record::Collection(0),
            Record::DocumentId(7),
            Record::KeyValue(vec![3], b"x".to_vec()),
            Record::DocumentId(8),
            Record::KeyValue(vec![3], b"y".to_vec()),
            Record::AccountId(2),
            Record::KeyValue(vec![3], b"z".to_vec()),
            Record::Family(Family::Acl),
            Record::Collection(1),
            Record::KeyValue(vec![0, 0, 0, 9], b"r".to_vec()),
            Record::DocumentId(u32::MAX),
            Record::KeyValue(vec![0, 0, 0, 9], b"r".to_vec()),
        ]
    );
    assert_eq!(export(vec![]), vec![]);
}

#[test]
fn emit_moves_the_context() {
    let mut ctx = Context::initial();
    let mut out = vec![Record::Collection(9)];
    emit(&mut ctx, entry(Family::Log, scope(4, u8::MAX, 6), b"k", b"v"), &mut out);
    assert_eq!(ctx, Context { family: Some(Family::Log), scope: scope(4, u8::MAX, 6) });
    assert_eq!(
        out,
        vec![
            Record::Collection(9),
            Record::Family(Family::Log),
            Record::AccountId(4),
            Record::DocumentId(6),
            Record::KeyValue(b"k".to_vec(), b"v".to_vec()),
        ]
    );
}

#[test]
fn operations_and_their_entries() {
    let at = scope(1, 1, 3);
    assert_eq!(
        describe(at, set(ValueClass::Property(5), b"p")),
        Some(entry(Family::Property, at, &[5], b"p"))
    );
    // the id counter of a mailbox takes a delta and nothing else
    assert_eq!(
        describe(at, add(ValueClass::Property(84), -2)),
        Some(entry(Family::Property, at, &[84], &(-2i64).to_le_bytes()))
    );
    assert_eq!(describe(at, set(ValueClass::Property(84), b"p")), None);
    assert_eq!(describe(at, add(ValueClass::Property(5), 1)), None);
    assert_eq!(
        describe(scope(1, 0, 3), set(ValueClass::Property(84), b"p")),
        Some(entry(Family::Property, scope(1, 0, 3), &[84], b"p"))
    );
    assert_eq!(
        describe(at, set(ValueClass::TermIndex, b"terms")),
        Some(entry(Family::TermIndex, at, b"terms", b""))
    );
    assert_eq!(describe(at, add(ValueClass::TermIndex, 1)), None);
    assert_eq!(
        describe(at, set(ValueClass::Acl(0x0102_0304), b"a")),
        Some(entry(Family::Acl, at, &[1, 2, 3, 4], b"a"))
    );
    let hash = vec![7u8; 32];
    assert_eq!(
        describe(at, set(ValueClass::Blob(BlobOp::Link { hash: hash.clone() }), b"")),
        Some(entry(Family::Blob, at, &hash, b""))
    );
    assert_eq!(describe(at, set(ValueClass::Blob(BlobOp::Link { hash: hash.clone() }), b"x")), None);
    assert_eq!(
        describe(scope(1, 1, u32::MAX), set(ValueClass::Blob(BlobOp::Link { hash: hash.clone() }), b"")),
        None
    );
    assert_eq!(describe(at, set(ValueClass::Blob(BlobOp::Link { hash: vec![7; 31] }), b"")), None);
    assert_eq!(describe(at, set(ValueClass::Blob(BlobOp::Commit { hash }), b"")), None);
    assert_eq!(
        describe(at, set(ValueClass::Config(b"c".to_vec()), b"v")),
        Some(entry(Family::Config, at, b"c", b"v"))
    );
    assert_eq!(
        describe(at, set(ValueClass::Lookup(LookupClass::Key(b"k".to_vec())), b"v")),
        Some(entry(Family::LookupValue, at, b"k", b"v"))
    );
    assert_eq!(
        describe(at, add(ValueClass::Lookup(LookupClass::Counter(b"k".to_vec())), 9)),
        Some(entry(Family::LookupCounter, at, b"k", &9i64.to_le_bytes()))
    );
    assert_eq!(describe(at, set(ValueClass::Lookup(LookupClass::Counter(b"k".to_vec())), b"v")), None);
    assert_eq!(
        describe(at, add(ValueClass::Directory(DirectoryClass::UsedQuota(200)), 5)),
        Some(entry(Family::Directory, at, &[4, 0xC8, 0x01], &5i64.to_le_bytes()))
    );
    assert_eq!(describe(at, set(ValueClass::Directory(DirectoryClass::UsedQuota(200)), b"v")), None);
    assert_eq!(
        describe(at, set(ValueClass::Directory(DirectoryClass::Domain(b"d".to_vec())), b"v")),
        Some(entry(Family::Directory, at, b"\x03d", b"v"))
    );
    assert_eq!(
        describe(at, set(ValueClass::Queue(QueueClass::Message(3)), b"m")),
        Some(entry(Family::Queue, at, &[0, 0, 0, 0, 0, 0, 0, 0, 3], b"m"))
    );
    assert_eq!(
        describe(at, Operation::Index { field: 2, key: b"ik".to_vec(), set: true }),
        Some(entry(Family::Index, at, b"\x02ik", b""))
    );
    assert_eq!(describe(at, Operation::Index { field: 2, key: b"ik".to_vec(), set: false }), None);
    assert_eq!(
        describe(at, Operation::Log { change_id: 1, collection: 1, set: b"l".to_vec() }),
        Some(entry(Family::Log, at, &[0, 0, 0, 0, 0, 0, 0, 1], b"l"))
    );
    assert_eq!(describe(at, Operation::Log { change_id: 1, collection: 2, set: vec![] }), None);
    assert_eq!(describe(at, Operation::Bitmap { class: BitmapClass::DocumentIds, set: true }), None);
}

#[test]
fn written_operations_are_restored() {
    let a = scope(1, 1, 3);
    let b = scope(1, 1, 4);
    let c = scope(2, 0, u32::MAX);
    let ops = vec![
        ScopedOp { scope: a, op: set(ValueClass::Property(5), b"p") },
        ScopedOp { scope: a, op: add(ValueClass::Property(84), 12) },
        ScopedOp { scope: a, op: set(ValueClass::TermIndex, b"terms") },
        ScopedOp { scope: b, op: set(ValueClass::Acl(77), b"acl") },
        ScopedOp { scope: b, op: set(ValueClass::Blob(BlobOp::Link { hash: vec![1; 32] }), b"") },
        ScopedOp { scope: c, op: set(ValueClass::Config(b"k".to_vec()), b"") },
        ScopedOp { scope: c, op: add(ValueClass::Lookup(LookupClass::Counter(vec![0])), i64::MIN) },
        ScopedOp {
            scope: c,
            op: set(
                ValueClass::Directory(DirectoryClass::MemberOf { principal_id: 5, member_of: 6 }),
                b"",
            ),
        },
        ScopedOp { scope: c, op: add(ValueClass::Directory(DirectoryClass::UsedQuota(5)), -1) },
        ScopedOp {
            scope: c,
            op: set(ValueClass::Queue(QueueClass::MessageEvent { due: 1, queue_id: 2 }), b"e"),
        },
        ScopedOp { scope: a, op: Operation::Index { field: 1, key: vec![2, 3], set: true } },
        ScopedOp { scope: a, op: Operation::Log { change_id: 9, collection: 1, set: vec![1] } },
    ];
    let entries: Vec<Entry> =
        ops.iter().map(|op| describe(op.scope, op.op.clone()).unwrap()).collect();
    let records = export(entries);
    let bytes = encode(&records).unwrap();
    assert_eq!(decode(&bytes), Ok(records.clone()));
    assert_eq!(restore_file(&bytes), Ok(vec![Action::Write(ops.clone())]));
    assert_eq!(replay(records), Ok(vec![Action::Write(ops)]));
}

#[test]
fn flat_batch_sets_the_scope_before_each_change() {
    let op = |n: u8| set(ValueClass::Config(vec![n]), b"");
    let items = flatten(vec![
        ScopedOp { scope: scope(1, 2, 3), op: op(0) },
        ScopedOp { scope: scope(1, 2, 3), op: op(1) },
        ScopedOp { scope: scope(1, 2, 4), op: op(2) },
        ScopedOp { scope: scope(9, 8, 4), op: op(3) },
    ]);
    assert_eq!(
        items,
        vec![
            BatchOp::AccountId(1),
            BatchOp::Collection(2),
            BatchOp::DocumentId(3),
            BatchOp::Apply(op(0)),
            BatchOp::Apply(op(1)),
            BatchOp::DocumentId(4),
            BatchOp::Apply(op(2)),
            BatchOp::AccountId(9),
            BatchOp::Collection(8),
            BatchOp::Apply(op(3)),
        ]
    );
    assert_eq!(flatten(vec![]), vec![]);
    let unset = scope(u32::MAX, u8::MAX, u32::MAX);
    assert_eq!(
        flatten(vec![ScopedOp { scope: unset, op: op(0) }]),
        vec![
            BatchOp::AccountId(u32::MAX),
            BatchOp::Collection(u8::MAX),
            BatchOp::DocumentId(u32::MAX),
            BatchOp::Apply(op(0)),
        ]
    );
}

#[test]
fn snapshot_of_entries_with_a_blob_is_restored() {
    let unlinked = scope(3, u8::MAX, u32::MAX);
    let bytes = write_snapshot(vec![
        entry(Family::Blob, unlinked, &[9; 32], b"blob bytes"),
        entry(Family::Blob, scope(3, 0, 4), &[9; 32], b""),
    ])
    .unwrap();
    assert_eq!(
        restore_file(&bytes),
        Ok(vec![
            Action::PutBlob { key: vec![9; 32], data: b"blob bytes".to_vec() },
            Action::Write(vec![
                ScopedOp {
                    scope: unlinked,
                    op: set(ValueClass::Blob(BlobOp::Commit { hash: vec![9; 32] }), b""),
                },
                ScopedOp {
                    scope: scope(3, 0, 4),
                    op: set(ValueClass::Blob(BlobOp::Link { hash: vec![9; 32] }), b""),
                },
            ]),
        ])
    );
    assert_eq!(write_snapshot(vec![]), Some(vec![123, 1]));
}
