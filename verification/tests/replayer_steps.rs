use snapshot_restore::codec::{OpReader, Record};
use snapshot_restore::engine::{replay, Action, Replayer};
use snapshot_restore::error::{ErrorKind, RestoreError};
use snapshot_restore::family::Family;
use snapshot_restore::ops::{Operation, Scope, ScopedOp, ValueClass, ValueOp};

fn config(key: &[u8]) -> Record {
    Record::KeyValue(key.to_vec(), b"v".to_vec())
}

fn written(key: &[u8], scope: Scope) -> ScopedOp {
    ScopedOp {
        scope,
        op: Operation::Value {
            class: ValueClass::Config(key.to_vec()),
            op: ValueOp::Overwrite(b"v".to_vec()),
        },
    }
}

#[test]
fn records_fed_one_by_one() {
    let unset = Scope { account_id: u32::MAX, collection: u8::MAX, document_id: u32::MAX };
    let mut replayer = Replayer::new();
    assert_eq!(replayer.feed(config(b"early")), Err(ErrorKind::MissingFamily));
    assert_eq!(replayer.feed(Record::Family(Family::Config)), Ok(vec![]));
    assert_eq!(replayer.feed(Record::Collection(3)), Ok(vec![]));
    for _ in 0..999 {
        assert_eq!(replayer.feed(config(b"k")), Ok(vec![]));
    }
    // a refused record changes nothing
    assert_eq!(replayer.feed(Record::Family(Family::Queue)), Ok(vec![]));
    assert_eq!(replayer.feed(config(b"")), Err(ErrorKind::MalformedKey));
    assert_eq!(replayer.feed(Record::Family(Family::Config)), Ok(vec![]));
    // the thousandth operation closes the batch
    let scope = Scope { collection: 3, ..unset };
    let closed = replayer.feed(config(b"last")).unwrap();
    assert_eq!(closed.len(), 1);
    match &closed[0] {
        Action::Write(ops) => {
            assert_eq!(ops.len(), 1000);
            assert_eq!(ops[0], written(b"k", scope));
            assert_eq!(ops[999], written(b"last", scope));
        }
        other => panic!("expected a write, got {other:?}"),
    }
    assert_eq!(replayer.feed(Record::KeyOnly(b"more".to_vec())).map(|a| a.len()), Ok(0));
    let rest = replayer.finish();
    assert_eq!(rest.len(), 1);
    assert!(matches!(&rest[0], Action::Write(ops) if ops.len() == 1 && ops[0].scope == scope));
    assert_eq!(Replayer::new().finish(), vec![]);
}

#[test]
fn reader_and_replayer_together_give_the_replay() {
    let mut data = vec![123, 1, 0, 3, 3, 0, 0, 0, 1];
    for i in 0..5u8 {
        data.push(1);
        data.extend_from_slice(&32u32.to_be_bytes());
        data.extend_from_slice(&[i; 32]);
        data.extend_from_slice(&1u32.to_be_bytes());
        data.push(i);
    }
    let mut reader = OpReader::new(&data).unwrap();
    let mut replayer = Replayer::new();
    let mut records = Vec::new();
    let mut actions = Vec::new();
    while let Some(record) = reader.next().unwrap() {
        records.push(record.clone());
        actions.extend(replayer.feed(record).unwrap());
    }
    actions.extend(replayer.finish());
    assert_eq!(actions.len(), 6);
    assert_eq!(replay(records), Ok(actions));
}

#[test]
fn replay_names_the_refused_record() {
    let records = vec![
        Record::Family(Family::Acl),
        Record::KeyValue(vec![0, 0, 0, 1], vec![]),
        Record::KeyValue(vec![0, 0, 1], vec![]),
        Record::KeyValue(vec![], vec![]),
    ];
    assert_eq!(replay(records), Err(RestoreError { kind: ErrorKind::MalformedKey, record: 2 }));
    assert_eq!(replay(vec![]), Ok(vec![]));
}
