use roaring::RoaringBitmap;
use snapshot_restore::codec::{FILE_VERSION, MAGIC_MARKER};
use snapshot_restore::engine::{restore, restore_file, Action, FileError};
use snapshot_restore::error::{ErrorKind, RestoreError};
use snapshot_restore::ops::{
    BitmapClass, BlobOp, DirectoryClass, Operation, Scope, ScopedOp, ValueClass, ValueOp,
};

fn header() -> Vec<u8> {
    vec![MAGIC_MARKER, FILE_VERSION]
}

fn family(out: &mut Vec<u8>, tag: u8) {
    out.push(0);
    out.push(tag);
}

fn sized(out: &mut Vec<u8>, bytes: &[u8]) {
    out.extend_from_slice(&(bytes.len() as u32).to_be_bytes());
    out.extend_from_slice(bytes);
}

fn key_value(out: &mut Vec<u8>, key: &[u8], value: &[u8]) {
    out.push(1);
    sized(out, key);
    sized(out, value);
}

fn account(out: &mut Vec<u8>, id: u32) {
    out.push(3);
    out.extend_from_slice(&id.to_be_bytes());
}

fn collection(out: &mut Vec<u8>, c: u8) {
    out.push(4);
    out.push(c);
}

fn document(out: &mut Vec<u8>, id: u32) {
    out.push(5);
    out.extend_from_slice(&id.to_be_bytes());
}

fn unset() -> Scope {
    Scope { account_id: u32::MAX, collection: u8::MAX, document_id: u32::MAX }
}

#[test]
fn header_mismatch_is_refused() {
    let bad_magic = restore_file(&[MAGIC_MARKER + 1, FILE_VERSION, 0, 0]);
    assert_eq!(bad_magic, Err(RestoreError { kind: ErrorKind::BadMagic, record: 0 }));
    let bad_version = restore_file(&[MAGIC_MARKER, FILE_VERSION + 1, 0, 0]);
    assert_eq!(bad_version, Err(RestoreError { kind: ErrorKind::BadVersion, record: 0 }));
    assert_eq!(restore_file(&[]), Err(RestoreError { kind: ErrorKind::BadMagic, record: 0 }));
    assert_eq!(
        restore_file(&[MAGIC_MARKER]),
        Err(RestoreError { kind: ErrorKind::BadVersion, record: 0 })
    );
    assert_eq!(restore_file(&header()), Ok(vec![]));
}

#[test]
fn flush_boundary_2001_records() {
    let mut data = header();
    family(&mut data, 4);
    account(&mut data, 7);
    collection(&mut data, 2);
    document(&mut data, 9);
    for i in 0..2001u32 {
        key_value(&mut data, &i.to_be_bytes(), b"v");
    }
    let actions = restore_file(&data).unwrap();
    let sizes: Vec<usize> = actions
        .iter()
        .map(|a| match a {
            Action::Write(ops) => ops.len(),
            Action::PutBlob { .. } => panic!("no blob expected"),
        })
        .collect();
    assert_eq!(sizes, vec![1000, 1000, 1]);
    let scope = Scope { account_id: 7, collection: 2, document_id: 9 };
    let mut seen = 0u32;
    for action in &actions {
        if let Action::Write(ops) = action {
            for op in ops {
                assert_eq!(op.scope, scope);
                assert_eq!(
                    op.op,
                    Operation::Value {
                        class: ValueClass::Config(seen.to_be_bytes().to_vec()),
                        op: ValueOp::Overwrite(b"v".to_vec()),
                    }
                );
                seen += 1;
            }
        }
    }
    assert_eq!(seen, 2001);
}

#[test]
fn bitmap_expands_to_one_operation_per_id() {
    let mut bitmap = RoaringBitmap::new();
    bitmap.insert(3);
    bitmap.insert(7);
    bitmap.insert(42);
    let mut value = Vec::new();
    bitmap.serialize_into(&mut value).unwrap();

    let mut data = header();
    family(&mut data, 10);
    account(&mut data, 1);
    collection(&mut data, 0);
    key_value(&mut data, &[0], &value);
    let actions = restore_file(&data).unwrap();
    let member = |document_id: u32| ScopedOp {
        scope: Scope { account_id: 1, collection: 0, document_id },
        op: Operation::Bitmap { class: BitmapClass::DocumentIds, set: true },
    };
    assert_eq!(actions, vec![Action::Write(vec![member(3), member(7), member(42)])]);
}

#[test]
fn bitmap_that_does_not_decode_is_refused() {
    let mut data = header();
    family(&mut data, 10);
    key_value(&mut data, &[0], &[1, 2, 3]);
    assert_eq!(
        restore_file(&data),
        Err(RestoreError { kind: ErrorKind::MalformedValue, record: 1 })
    );
}

#[test]
fn blob_with_document_is_linked() {
    let hash = [0xABu8; 32];
    let mut data = header();
    family(&mut data, 3);
    account(&mut data, 5);
    document(&mut data, 6);
    key_value(&mut data, &hash, b"payload");
    let actions = restore_file(&data).unwrap();
    assert_eq!(
        actions,
        vec![Action::Write(vec![ScopedOp {
            scope: Scope { account_id: 5, collection: u8::MAX, document_id: 6 },
            op: Operation::Value {
                class: ValueClass::Blob(BlobOp::Link { hash: hash.to_vec() }),
                op: ValueOp::Overwrite(vec![]),
            },
        }])]
    );
}

#[test]
fn blob_without_document_is_written_and_committed() {
    let hash = [0xABu8; 32];
    let mut data = header();
    family(&mut data, 3);
    account(&mut data, 5);
    key_value(&mut data, &hash, b"payload");
    let actions = restore_file(&data).unwrap();
    assert_eq!(
        actions,
        vec![
            Action::PutBlob { key: hash.to_vec(), data: b"payload".to_vec() },
            Action::Write(vec![ScopedOp {
                scope: Scope { account_id: 5, collection: u8::MAX, document_id: u32::MAX },
                op: Operation::Value {
                    class: ValueClass::Blob(BlobOp::Commit { hash: hash.to_vec() }),
                    op: ValueOp::Overwrite(vec![]),
                },
            }]),
        ]
    );
}

#[test]
fn used_quota_is_a_delta() {
    let mut data = header();
    family(&mut data, 7);
    key_value(&mut data, &[4, 0x85, 0x01], &(-3i64).to_le_bytes());
    let actions = restore_file(&data).unwrap();
    assert_eq!(
        actions,
        vec![Action::Write(vec![ScopedOp {
            scope: unset(),
            op: Operation::Value {
                class: ValueClass::Directory(DirectoryClass::UsedQuota(133)),
                op: ValueOp::Add(-3),
            },
        }])]
    );
}

#[test]
fn restore_of_several_files() {
    let mut first = header();
    family(&mut first, 4);
    key_value(&mut first, b"a", b"1");
    let mut second = header();
    family(&mut second, 5);
    key_value(&mut second, b"b", b"2");
    let plans = restore(&vec![first.clone(), second.clone()]).unwrap();
    assert_eq!(plans.len(), 2);
    assert_eq!(plans[0], restore_file(&first).unwrap());
    assert_eq!(plans[1], restore_file(&second).unwrap());

    let mut broken = header();
    broken.push(9);
    assert_eq!(
        restore(&vec![first, broken, second]),
        Err(FileError {
            file: 1,
            error: RestoreError { kind: ErrorKind::UnknownRecord(9), record: 0 },
        })
    );
}

fn writes(actions: &[Action]) -> Vec<&Vec<ScopedOp>> {
    actions
        .iter()
        .filter_map(|a| match a {
            Action::Write(ops) => Some(ops),
            Action::PutBlob { .. } => None,
        })
        .collect()
}

#[test]
fn exactly_a_full_batch_leaves_nothing_over() {
    for (count, sizes) in [
        (999usize, vec![999usize]),
        (1000, vec![1000]),
        (1001, vec![1000, 1]),
        (2000, vec![1000, 1000]),
        (0, vec![]),
    ] {
        let mut data = header();
        family(&mut data, 4);
        for i in 0..count {
            key_value(&mut data, &(i as u32).to_be_bytes(), b"v");
        }
        let actions = restore_file(&data).unwrap();
        let got: Vec<usize> = writes(&actions).iter().map(|ops| ops.len()).collect();
        assert_eq!(got, sizes);
    }
}

#[test]
fn context_records_alone_write_nothing() {
    let mut data = header();
    family(&mut data, 0);
    account(&mut data, 1);
    collection(&mut data, 2);
    document(&mut data, 3);
    assert_eq!(restore_file(&data), Ok(vec![]));
}

#[test]
fn context_survives_a_flush_and_changes_apply_from_the_next_key() {
    let mut data = header();
    family(&mut data, 4);
    account(&mut data, 1);
    for _ in 0..999 {
        key_value(&mut data, b"k", b"v");
    }
    document(&mut data, 5);
    key_value(&mut data, b"k", b"v"); // closes the first batch
    key_value(&mut data, b"k", b"v"); // opens the second
    account(&mut data, 2);
    key_value(&mut data, b"k", b"v");
    let actions = restore_file(&data).unwrap();
    let batches = writes(&actions);
    assert_eq!(batches.len(), 2);
    assert_eq!(batches[0].len(), 1000);
    assert_eq!(batches[1].len(), 2);
    let at = |account_id, document_id| Scope { account_id, collection: u8::MAX, document_id };
    assert_eq!(batches[0][0].scope, at(1, u32::MAX));
    assert_eq!(batches[0][998].scope, at(1, u32::MAX));
    assert_eq!(batches[0][999].scope, at(1, 5));
    assert_eq!(batches[1][0].scope, at(1, 5));
    assert_eq!(batches[1][1].scope, at(2, 5));
}

#[test]
fn bitmap_ids_count_one_by_one_towards_the_batch() {
    let bitmap: RoaringBitmap = (0..2500u32).map(|i| i * 3).collect();
    let mut value = Vec::new();
    bitmap.serialize_into(&mut value).unwrap();

    let mut data = header();
    family(&mut data, 4);
    account(&mut data, 8);
    collection(&mut data, 1);
    document(&mut data, 77);
    key_value(&mut data, b"before", b"v");
    family(&mut data, 10);
    key_value(&mut data, &[3, 4, 5], &value);
    family(&mut data, 4);
    key_value(&mut data, b"after", b"v");

    let actions = restore_file(&data).unwrap();
    let batches = writes(&actions);
    let sizes: Vec<usize> = batches.iter().map(|b| b.len()).collect();
    assert_eq!(sizes, vec![1000, 1000, 502]);
    let all: Vec<&ScopedOp> = batches.iter().flat_map(|b| b.iter()).collect();
    assert_eq!(all[0].scope, Scope { account_id: 8, collection: 1, document_id: 77 });
    for (i, op) in all[1..2501].iter().enumerate() {
        assert_eq!(op.scope, Scope { account_id: 8, collection: 1, document_id: i as u32 * 3 });
        assert_eq!(
            op.op,
            Operation::Bitmap {
                class: BitmapClass::Tag {
                    field: 4,
                    value: snapshot_restore::ops::TagValue::Static(5)
                },
                set: true
            }
        );
    }
    // the document of the context is untouched by the expansion
    assert_eq!(all[2501].scope, Scope { account_id: 8, collection: 1, document_id: 77 });
}

#[test]
fn empty_bitmap_adds_nothing() {
    let mut value = Vec::new();
    RoaringBitmap::new().serialize_into(&mut value).unwrap();
    let mut data = header();
    family(&mut data, 10);
    key_value(&mut data, &[0], &value);
    assert_eq!(restore_file(&data), Ok(vec![]));
}

#[test]
fn key_only_record_has_an_empty_value() {
    let mut data = header();
    family(&mut data, 9);
    data.push(2);
    sized(&mut data, &[6, 1, 2]);
    family(&mut data, 4);
    data.push(2);
    sized(&mut data, b"flag");
    let actions = restore_file(&data).unwrap();
    assert_eq!(
        actions,
        vec![Action::Write(vec![
            ScopedOp { scope: unset(), op: Operation::Index { field: 6, key: vec![1, 2], set: true } },
            ScopedOp {
                scope: unset(),
                op: Operation::Value {
                    class: ValueClass::Config(b"flag".to_vec()),
                    op: ValueOp::Overwrite(vec![]),
                },
            },
        ])]
    );
}

#[test]
fn defects_name_their_record() {
    let mut data = header();
    key_value(&mut data, b"k", b"v");
    assert_eq!(
        restore_file(&data),
        Err(RestoreError { kind: ErrorKind::MissingFamily, record: 0 })
    );

    let mut data = header();
    family(&mut data, 7);
    key_value(&mut data, b"\x00a", b"v");
    account(&mut data, 1);
    key_value(&mut data, b"\x09a", b"v");
    key_value(&mut data, b"\x00a", b"v");
    assert_eq!(
        restore_file(&data),
        Err(RestoreError { kind: ErrorKind::UnknownSubtype(9), record: 3 })
    );

    let mut data = header();
    family(&mut data, 8);
    key_value(&mut data, &[0, 1], b"v");
    assert_eq!(
        restore_file(&data),
        Err(RestoreError { kind: ErrorKind::MalformedKey, record: 1 })
    );

    let mut data = header();
    family(&mut data, 6);
    key_value(&mut data, b"counter", b"v");
    assert_eq!(
        restore_file(&data),
        Err(RestoreError { kind: ErrorKind::MalformedValue, record: 1 })
    );
}

#[test]
fn a_defect_anywhere_yields_no_action() {
    let mut data = header();
    family(&mut data, 3);
    key_value(&mut data, &[1u8; 32], b"blob");
    family(&mut data, 4);
    for _ in 0..1500 {
        key_value(&mut data, b"k", b"v");
    }
    let sound = restore_file(&data).unwrap();
    assert_eq!(sound.len(), 3);
    assert!(matches!(sound[0], Action::PutBlob { .. }));

    let mut cut = data.clone();
    cut.pop();
    assert_eq!(
        restore_file(&cut),
        Err(RestoreError { kind: ErrorKind::Truncated, record: 1502 })
    );
    let mut extra = data.clone();
    extra.push(77);
    assert_eq!(
        restore_file(&extra),
        Err(RestoreError { kind: ErrorKind::UnknownRecord(77), record: 1503 })
    );
}

#[test]
fn blobs_are_put_before_the_batch_that_commits_them() {
    let mut data = header();
    family(&mut data, 3);
    for i in 0..3u8 {
        key_value(&mut data, &[i; 32], &[i]);
    }
    let actions = restore_file(&data).unwrap();
    assert_eq!(actions.len(), 4);
    for i in 0..3u8 {
        assert_eq!(actions[i as usize], Action::PutBlob { key: vec![i; 32], data: vec![i] });
    }
    match &actions[3] {
        Action::Write(ops) => {
            assert_eq!(ops.len(), 3);
            for (i, op) in ops.iter().enumerate() {
                assert_eq!(
                    op.op,
                    Operation::Value {
                        class: ValueClass::Blob(BlobOp::Commit { hash: vec![i as u8; 32] }),
                        op: ValueOp::Overwrite(vec![]),
                    }
                );
            }
        }
        other => panic!("expected a write, got {other:?}"),
    }
}

#[test]
fn used_quota_is_a_delta_every_time() {
    let mut data = header();
    family(&mut data, 7);
    key_value(&mut data, &[4, 1], &10i64.to_le_bytes());
    key_value(&mut data, &[4, 1], &(-4i64).to_le_bytes());
    key_value(&mut data, &[2, 1], b"principal");
    let actions = restore_file(&data).unwrap();
    let quota = |by| ScopedOp {
        scope: unset(),
        op: Operation::Value {
            class: ValueClass::Directory(DirectoryClass::UsedQuota(1)),
            op: ValueOp::Add(by),
        },
    };
    assert_eq!(
        actions,
        vec![Action::Write(vec![
            quota(10),
            quota(-4),
            ScopedOp {
                scope: unset(),
                op: Operation::Value {
                    class: ValueClass::Directory(DirectoryClass::Principal(1)),
                    op: ValueOp::Overwrite(b"principal".to_vec()),
                },
            },
        ])]
    );
}

#[test]
fn restore_of_no_files_and_of_a_first_bad_file() {
    assert_eq!(restore(&vec![]), Ok(vec![]));
    assert_eq!(
        restore(&vec![vec![], header()]),
        Err(FileError { file: 0, error: RestoreError { kind: ErrorKind::BadMagic, record: 0 } })
    );
    assert_eq!(restore(&vec![header(), header()]), Ok(vec![vec![], vec![]]));
}
