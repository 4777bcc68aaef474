//! The key and value layout of each record family, and the write operation
//! that a key-value record stands for under a given family.

use crate::bytes::{
    be_u32_at, be_u64_at, le_i64, lemma_be_u32_round_trip, lemma_be_u64_round_trip,
    lemma_varint_round_trip, read_be_u32, read_be_u64, read_le_i64, read_varint_u32,
    u32_be_bytes, u64_be_bytes, varint_bytes, varint_u32, write_be_u32, write_be_u64,
    write_varint_u32,
};
use crate::error::{lift, ErrorKind};
use crate::ops::{
    BitmapClass, BitmapClassView, BlobOp, BlobOpView, DirectoryClass, DirectoryClassView,
    Operation, OperationView, QueueClass, Scope, TagValue, TagValueView, ValueClass,
    ValueClassView, ValueOp, ValueOpView, UNSET_ID,
};
use vstd::prelude::*;
use vstd::slice::{slice_subrange, slice_to_vec};

verus! {

/// The collection whose `PROPERTY_EMAIL_IDS` property is a running counter.
pub const COLLECTION_MAILBOX: u8 = 1;

/// The property that, in a mailbox, counts the ids handed out so far.
pub const PROPERTY_EMAIL_IDS: u8 = 84;

/// The length of a content hash, which is the whole key of a blob record.
pub const BLOB_HASH_LEN: usize = 32;

/// An operation that overwrites the slot `class` with `value`.
pub open spec fn overwrite(class: ValueClassView, value: Seq<u8>) -> OperationView {
    OperationView::Value { class, op: ValueOpView::Overwrite(value) }
}

/// An operation that adds the counter held by `value` to the slot `class`;
/// a value that holds no counter is refused.
pub open spec fn add_delta(class: ValueClassView, value: Seq<u8>) -> Result<
    OperationView,
    ErrorKind,
> {
    match le_i64(value) {
        Some(delta) => Ok(OperationView::Value { class, op: ValueOpView::Add(delta) }),
        None => Err(ErrorKind::MalformedValue),
    }
}

/// Property: the key starts with the field. The id counter of a mailbox
/// takes a delta; every other property is overwritten.
pub open spec fn property_op(collection: u8, key: Seq<u8>, value: Seq<u8>) -> Result<
    OperationView,
    ErrorKind,
> {
    if key.len() < 1 {
        Err(ErrorKind::MalformedKey)
    } else if collection == COLLECTION_MAILBOX && key[0] == PROPERTY_EMAIL_IDS {
        add_delta(ValueClassView::Property(key[0]), value)
    } else {
        Ok(overwrite(ValueClassView::Property(key[0]), value))
    }
}

/// Term index: the key is the index itself and is stored verbatim.
pub open spec fn term_index_op(key: Seq<u8>) -> OperationView {
    overwrite(ValueClassView::TermIndex, key)
}

/// Access control: the key starts with the grantee, a big-endian `u32`.
pub open spec fn acl_op(key: Seq<u8>, value: Seq<u8>) -> Result<OperationView, ErrorKind> {
    match be_u32_at(key, 0) {
        Some(grantee) => Ok(overwrite(ValueClassView::Acl(grantee), value)),
        None => Err(ErrorKind::MalformedKey),
    }
}

/// Whether a blob record refers to a blob from a document, which is the case
/// once both an account and a document are set.
pub open spec fn blob_is_link(scope: Scope) -> bool {
    scope.account_id != UNSET_ID && scope.document_id != UNSET_ID
}

/// Blob: the key is the content hash. The operation carries no value.
pub open spec fn blob_op(scope: Scope, key: Seq<u8>) -> Result<OperationView, ErrorKind> {
    if key.len() != BLOB_HASH_LEN {
        Err(ErrorKind::MalformedKey)
    } else if blob_is_link(scope) {
        Ok(overwrite(ValueClassView::Blob(BlobOpView::Link { hash: key }), Seq::empty()))
    } else {
        Ok(overwrite(ValueClassView::Blob(BlobOpView::Commit { hash: key }), Seq::empty()))
    }
}

/// Directory: the key starts with a subtype byte.
pub open spec fn directory_class(key: Seq<u8>) -> Result<DirectoryClassView, ErrorKind> {
    if key.len() < 1 {
        Err(ErrorKind::MalformedKey)
    } else if key[0] == 0 {
        Ok(DirectoryClassView::NameToId(key.skip(1)))
    } else if key[0] == 1 {
        Ok(DirectoryClassView::EmailToId(key.skip(1)))
    } else if key[0] == 2 {
        match varint_u32(key.skip(1)) {
            Some(id) => Ok(DirectoryClassView::Principal(id)),
            None => Err(ErrorKind::MalformedKey),
        }
    } else if key[0] == 3 {
        Ok(DirectoryClassView::Domain(key.skip(1)))
    } else if key[0] == 4 {
        match varint_u32(key.skip(1)) {
            Some(id) => Ok(DirectoryClassView::UsedQuota(id)),
            None => Err(ErrorKind::MalformedKey),
        }
    } else if key[0] == 5 {
        match (be_u32_at(key, 1), be_u32_at(key, 5)) {
            (Some(principal_id), Some(member_of)) => Ok(
                DirectoryClassView::MemberOf { principal_id, member_of },
            ),
            _ => Err(ErrorKind::MalformedKey),
        }
    } else if key[0] == 6 {
        match (be_u32_at(key, 1), be_u32_at(key, 5)) {
            (Some(principal_id), Some(has_member)) => Ok(
                DirectoryClassView::Members { principal_id, has_member },
            ),
            _ => Err(ErrorKind::MalformedKey),
        }
    } else {
        Err(ErrorKind::UnknownSubtype(key[0]))
    }
}

/// Directory: a used quota takes a delta, every other entry is overwritten.
pub open spec fn directory_op(key: Seq<u8>, value: Seq<u8>) -> Result<OperationView, ErrorKind> {
    match directory_class(key) {
        Ok(class) => if class is UsedQuota {
            add_delta(ValueClassView::Directory(class), value)
        } else {
            Ok(overwrite(ValueClassView::Directory(class), value))
        },
        Err(e) => Err(e),
    }
}

/// Queue: the key starts with a subtype byte.
pub open spec fn queue_class(key: Seq<u8>) -> Result<QueueClass, ErrorKind> {
    if key.len() < 1 {
        Err(ErrorKind::MalformedKey)
    } else if key[0] == 0 {
        match be_u64_at(key, 1) {
            Some(queue_id) => Ok(QueueClass::Message(queue_id)),
            None => Err(ErrorKind::MalformedKey),
        }
    } else if key[0] == 1 {
        match (be_u64_at(key, 1), be_u64_at(key, 9)) {
            (Some(due), Some(queue_id)) => Ok(QueueClass::MessageEvent { due, queue_id }),
            _ => Err(ErrorKind::MalformedKey),
        }
    } else {
        Err(ErrorKind::UnknownSubtype(key[0]))
    }
}

/// Queue: the payload is overwritten.
pub open spec fn queue_op(key: Seq<u8>, value: Seq<u8>) -> Result<OperationView, ErrorKind> {
    match queue_class(key) {
        Ok(class) => Ok(overwrite(ValueClassView::Queue(class), value)),
        Err(e) => Err(e),
    }
}

/// Secondary index: the key is the field and the index key; there is no
/// stored value.
pub open spec fn index_op(key: Seq<u8>) -> Result<OperationView, ErrorKind> {
    if key.len() < 1 {
        Err(ErrorKind::MalformedKey)
    } else {
        Ok(OperationView::Index { field: key[0], key: key.skip(1), set: true })
    }
}

/// Bitmap: the key starts with a subtype byte.
pub open spec fn bitmap_class(key: Seq<u8>) -> Result<BitmapClassView, ErrorKind> {
    if key.len() < 1 {
        Err(ErrorKind::MalformedKey)
    } else if key[0] == 0 {
        Ok(BitmapClassView::DocumentIds)
    } else if key[0] == 1 {
        match be_u32_at(key, 2) {
            Some(id) => Ok(BitmapClassView::Tag { field: key[1], value: TagValueView::Id(id) }),
            None => Err(ErrorKind::MalformedKey),
        }
    } else if key[0] == 2 {
        if key.len() < 2 {
            Err(ErrorKind::MalformedKey)
        } else {
            Ok(BitmapClassView::Tag { field: key[1], value: TagValueView::Text(key.skip(2)) })
        }
    } else if key[0] == 3 {
        if key.len() < 3 {
            Err(ErrorKind::MalformedKey)
        } else {
            Ok(BitmapClassView::Tag { field: key[1], value: TagValueView::Static(key[2]) })
        }
    } else if key[0] == 4 {
        if key.len() < 11 {
            Err(ErrorKind::MalformedKey)
        } else {
            Ok(BitmapClassView::Text { field: key[1], len: key[2], hash: key.subrange(3, 11) })
        }
    } else {
        Err(ErrorKind::UnknownSubtype(key[0]))
    }
}

/// Change log: the key starts with the change id, a big-endian `u64`.
pub open spec fn log_op(collection: u8, key: Seq<u8>, value: Seq<u8>) -> Result<
    OperationView,
    ErrorKind,
> {
    match be_u64_at(key, 0) {
        Some(change_id) => Ok(OperationView::Log { change_id, collection, set: value }),
        None => Err(ErrorKind::MalformedKey),
    }
}

fn tail(key: &[u8], from: usize) -> (r: Vec<u8>)
    requires
        from <= key@.len(),
    ensures
        r@ == key@.skip(from as int),
{
    slice_to_vec(slice_subrange(key, from, key.len()))
}

fn add_delta_op(class: ValueClass, value: &[u8]) -> (r: Result<Operation, ErrorKind>)
    ensures
        lift(r) == add_delta(class@, value@),
{
    match read_le_i64(value) {
        Some(delta) => Ok(Operation::Value { class, op: ValueOp::Add(delta) }),
        None => Err(ErrorKind::MalformedValue),
    }
}

/// The operation of a property record in the given collection.
pub fn decode_property(collection: u8, key: &[u8], value: Vec<u8>) -> (r: Result<
    Operation,
    ErrorKind,
>)
    ensures
        lift(r) == property_op(collection, key@, value@),
{
    if key.len() < 1 {
        return Err(ErrorKind::MalformedKey);
    }
    let field: u8 = key[0];
    if collection == COLLECTION_MAILBOX && field == PROPERTY_EMAIL_IDS {
        add_delta_op(ValueClass::Property(field), value.as_slice())
    } else {
        Ok(Operation::Value { class: ValueClass::Property(field), op: ValueOp::Overwrite(value) })
    }
}

/// The operation of an access-control record.
pub fn decode_acl(key: &[u8], value: Vec<u8>) -> (r: Result<Operation, ErrorKind>)
    ensures
        lift(r) == acl_op(key@, value@),
{
    match read_be_u32(key, 0) {
        Some(grantee) => Ok(
            Operation::Value { class: ValueClass::Acl(grantee), op: ValueOp::Overwrite(value) },
        ),
        None => Err(ErrorKind::MalformedKey),
    }
}

/// The operation of a blob record in the given scope. Whether the blob's
/// bytes are to be written goes by `blob_is_link` and is not decided here.
pub fn decode_blob(scope: Scope, key: Vec<u8>) -> (r: Result<Operation, ErrorKind>)
    ensures
        lift(r) == blob_op(scope, key@),
{
    if key.len() != BLOB_HASH_LEN {
        return Err(ErrorKind::MalformedKey);
    }
    let op = if scope.account_id != UNSET_ID && scope.document_id != UNSET_ID {
        BlobOp::Link { hash: key }
    } else {
        BlobOp::Commit { hash: key }
    };
    Ok(Operation::Value { class: ValueClass::Blob(op), op: ValueOp::Overwrite(Vec::new()) })
}

/// Reads a directory key.
pub fn decode_directory_key(key: &[u8]) -> (r: Result<DirectoryClass, ErrorKind>)
    ensures
        lift(r) == directory_class(key@),
{
    if key.len() < 1 {
        return Err(ErrorKind::MalformedKey);
    }
    let subtype: u8 = key[0];
    if subtype == 0 {
        Ok(DirectoryClass::NameToId(tail(key, 1)))
    } else if subtype == 1 {
        Ok(DirectoryClass::EmailToId(tail(key, 1)))
    } else if subtype == 2 {
        match read_varint_u32(slice_subrange(key, 1, key.len())) {
            Some(id) => Ok(DirectoryClass::Principal(id)),
            None => Err(ErrorKind::MalformedKey),
        }
    } else if subtype == 3 {
        Ok(DirectoryClass::Domain(tail(key, 1)))
    } else if subtype == 4 {
        match read_varint_u32(slice_subrange(key, 1, key.len())) {
            Some(id) => Ok(DirectoryClass::UsedQuota(id)),
            None => Err(ErrorKind::MalformedKey),
        }
    } else if subtype == 5 {
        match (read_be_u32(key, 1), read_be_u32(key, 5)) {
            (Some(principal_id), Some(member_of)) => Ok(
                DirectoryClass::MemberOf { principal_id, member_of },
            ),
            _ => Err(ErrorKind::MalformedKey),
        }
    } else if subtype == 6 {
        match (read_be_u32(key, 1), read_be_u32(key, 5)) {
            (Some(principal_id), Some(has_member)) => Ok(
                DirectoryClass::Members { principal_id, has_member },
            ),
            _ => Err(ErrorKind::MalformedKey),
        }
    } else {
        Err(ErrorKind::UnknownSubtype(subtype))
    }
}

/// The operation of a directory record.
pub fn decode_directory(key: &[u8], value: Vec<u8>) -> (r: Result<Operation, ErrorKind>)
    ensures
        lift(r) == directory_op(key@, value@),
{
    match decode_directory_key(key) {
        Ok(class) => {
            let is_quota = match &class {
                DirectoryClass::UsedQuota(_) => true,
                _ => false,
            };
            if is_quota {
                add_delta_op(ValueClass::Directory(class), value.as_slice())
            } else {
                Ok(
                    Operation::Value {
                        class: ValueClass::Directory(class),
                        op: ValueOp::Overwrite(value),
                    },
                )
            }
        },
        Err(e) => Err(e),
    }
}

/// Reads a queue key.
pub fn decode_queue_key(key: &[u8]) -> (r: Result<QueueClass, ErrorKind>)
    ensures
        r == queue_class(key@),
{
    if key.len() < 1 {
        return Err(ErrorKind::MalformedKey);
    }
    let subtype: u8 = key[0];
    if subtype == 0 {
        match read_be_u64(key, 1) {
            Some(queue_id) => Ok(QueueClass::Message(queue_id)),
            None => Err(ErrorKind::MalformedKey),
        }
    } else if subtype == 1 {
        match (read_be_u64(key, 1), read_be_u64(key, 9)) {
            (Some(due), Some(queue_id)) => Ok(QueueClass::MessageEvent { due, queue_id }),
            _ => Err(ErrorKind::MalformedKey),
        }
    } else {
        Err(ErrorKind::UnknownSubtype(subtype))
    }
}

/// The operation of a queue record.
pub fn decode_queue(key: &[u8], value: Vec<u8>) -> (r: Result<Operation, ErrorKind>)
    ensures
        lift(r) == queue_op(key@, value@),
{
    match decode_queue_key(key) {
        Ok(class) => Ok(
            Operation::Value { class: ValueClass::Queue(class), op: ValueOp::Overwrite(value) },
        ),
        Err(e) => Err(e),
    }
}

/// The operation of a secondary-index record.
pub fn decode_index(key: &[u8]) -> (r: Result<Operation, ErrorKind>)
    ensures
        lift(r) == index_op(key@),
{
    if key.len() < 1 {
        return Err(ErrorKind::MalformedKey);
    }
    Ok(Operation::Index { field: key[0], key: tail(key, 1), set: true })
}

/// Reads a bitmap key.
pub fn decode_bitmap_key(key: &[u8]) -> (r: Result<BitmapClass, ErrorKind>)
    ensures
        lift(r) == bitmap_class(key@),
{
    if key.len() < 1 {
        return Err(ErrorKind::MalformedKey);
    }
    let subtype: u8 = key[0];
    if subtype == 0 {
        Ok(BitmapClass::DocumentIds)
    } else if subtype == 1 {
        match read_be_u32(key, 2) {
            Some(id) => Ok(BitmapClass::Tag { field: key[1], value: TagValue::Id(id) }),
            None => Err(ErrorKind::MalformedKey),
        }
    } else if subtype == 2 {
        if key.len() < 2 {
            Err(ErrorKind::MalformedKey)
        } else {
            Ok(BitmapClass::Tag { field: key[1], value: TagValue::Text(tail(key, 2)) })
        }
    } else if subtype == 3 {
        if key.len() < 3 {
            Err(ErrorKind::MalformedKey)
        } else {
            Ok(BitmapClass::Tag { field: key[1], value: TagValue::Static(key[2]) })
        }
    } else if subtype == 4 {
        if key.len() < 11 {
            Err(ErrorKind::MalformedKey)
        } else {
            let hash = slice_to_vec(slice_subrange(key, 3, 11));
            Ok(BitmapClass::Text { field: key[1], len: key[2], hash })
        }
    } else {
        Err(ErrorKind::UnknownSubtype(subtype))
    }
}

/// The operation of a change-log record in the given collection.
pub fn decode_log(collection: u8, key: &[u8], value: Vec<u8>) -> (r: Result<Operation, ErrorKind>)
    ensures
        lift(r) == log_op(collection, key@, value@),
{
    match read_be_u64(key, 0) {
        Some(change_id) => Ok(Operation::Log { change_id, collection, set: value }),
        None => Err(ErrorKind::MalformedKey),
    }
}

/// The key of a directory entry.
pub open spec fn directory_key(class: DirectoryClassView) -> Seq<u8> {
    match class {
        DirectoryClassView::NameToId(name) => seq![0u8] + name,
        DirectoryClassView::EmailToId(email) => seq![1u8] + email,
        DirectoryClassView::Principal(id) => seq![2u8] + varint_bytes(id as int),
        DirectoryClassView::Domain(domain) => seq![3u8] + domain,
        DirectoryClassView::UsedQuota(id) => seq![4u8] + varint_bytes(id as int),
        DirectoryClassView::MemberOf { principal_id, member_of } => seq![5u8] + u32_be_bytes(
            principal_id,
        ) + u32_be_bytes(member_of),
        DirectoryClassView::Members { principal_id, has_member } => seq![6u8] + u32_be_bytes(
            principal_id,
        ) + u32_be_bytes(has_member),
    }
}

/// The key of a queue entry.
pub open spec fn queue_key(class: QueueClass) -> Seq<u8> {
    match class {
        QueueClass::Message(queue_id) => seq![0u8] + u64_be_bytes(queue_id),
        QueueClass::MessageEvent { due, queue_id } => seq![1u8] + u64_be_bytes(due) + u64_be_bytes(
            queue_id,
        ),
    }
}

/// The key of a bitmap.
pub open spec fn bitmap_key(class: BitmapClassView) -> Seq<u8> {
    match class {
        BitmapClassView::DocumentIds => seq![0u8],
        BitmapClassView::Tag { field, value } => match value {
            TagValueView::Id(id) => seq![1u8, field] + u32_be_bytes(id),
            TagValueView::Text(text) => seq![2u8, field] + text,
            TagValueView::Static(id) => seq![3u8, field, id],
        },
        BitmapClassView::Text { field, len, hash } => seq![4u8, field, len] + hash,
    }
}

proof fn lemma_u32_behind(s: Seq<u8>, at: int, v: u32)
    requires
        0 <= at,
        at + 4 <= s.len(),
        forall|i: int| 0 <= i < 4 ==> s[at + i] == u32_be_bytes(v)[i],
    ensures
        be_u32_at(s, at) == Some(v),
{
    assert(s.subrange(at, at + 4) =~= u32_be_bytes(v));
    lemma_be_u32_round_trip(s, at, v);
}

proof fn lemma_u64_behind(s: Seq<u8>, at: int, v: u64)
    requires
        0 <= at,
        at + 8 <= s.len(),
        forall|i: int| 0 <= i < 8 ==> s[at + i] == u64_be_bytes(v)[i],
    ensures
        be_u64_at(s, at) == Some(v),
{
    assert(s.subrange(at, at + 8) =~= u64_be_bytes(v));
    lemma_be_u64_round_trip(s, at, v);
}

/// Every directory entry is read back from its key.
pub proof fn law_directory_key_round_trip(class: DirectoryClassView)
    ensures
        directory_class(directory_key(class)) == Ok::<DirectoryClassView, ErrorKind>(class),
{
    let key = directory_key(class);
    match class {
        DirectoryClassView::NameToId(name) => {
            assert(key.skip(1) =~= name);
        },
        DirectoryClassView::EmailToId(email) => {
            assert(key.skip(1) =~= email);
        },
        DirectoryClassView::Principal(id) => {
            lemma_varint_round_trip(id, Seq::empty());
            assert(key.skip(1) =~= varint_bytes(id as int) + Seq::<u8>::empty());
        },
        DirectoryClassView::Domain(domain) => {
            assert(key.skip(1) =~= domain);
        },
        DirectoryClassView::UsedQuota(id) => {
            lemma_varint_round_trip(id, Seq::empty());
            assert(key.skip(1) =~= varint_bytes(id as int) + Seq::<u8>::empty());
        },
        DirectoryClassView::MemberOf { principal_id, member_of } => {
            lemma_u32_behind(key, 1, principal_id);
            lemma_u32_behind(key, 5, member_of);
        },
        DirectoryClassView::Members { principal_id, has_member } => {
            lemma_u32_behind(key, 1, principal_id);
            lemma_u32_behind(key, 5, has_member);
        },
    }
}

/// Every queue entry is read back from its key.
pub proof fn law_queue_key_round_trip(class: QueueClass)
    ensures
        queue_class(queue_key(class)) == Ok::<QueueClass, ErrorKind>(class),
{
    let key = queue_key(class);
    match class {
        QueueClass::Message(queue_id) => {
            lemma_u64_behind(key, 1, queue_id);
        },
        QueueClass::MessageEvent { due, queue_id } => {
            lemma_u64_behind(key, 1, due);
            lemma_u64_behind(key, 9, queue_id);
        },
    }
}

/// Every bitmap is read back from its key; the hash of a text token is
/// eight bytes long.
pub proof fn law_bitmap_key_round_trip(class: BitmapClassView)
    requires
        class matches BitmapClassView::Text { hash, .. } ==> hash.len() == 8,
    ensures
        bitmap_class(bitmap_key(class)) == Ok::<BitmapClassView, ErrorKind>(class),
{
    let key = bitmap_key(class);
    match class {
        BitmapClassView::DocumentIds => {},
        BitmapClassView::Tag { field, value } => match value {
            TagValueView::Id(id) => {
                lemma_u32_behind(key, 2, id);
            },
            TagValueView::Text(text) => {
                assert(key.skip(2) =~= text);
            },
            TagValueView::Static(id) => {},
        },
        BitmapClassView::Text { field, len, hash } => {
            assert(key.subrange(3, 11) =~= hash);
        },
    }
}

fn with_tail(head: u8, tail: &Vec<u8>) -> (key: Vec<u8>)
    ensures
        key@ == seq![head] + tail@,
{
    let mut key: Vec<u8> = Vec::new();
    key.push(head);
    key.extend_from_slice(tail.as_slice());
    assert(key@ =~= seq![head] + tail@);
    key
}

/// Writes the key of a directory entry.
pub fn encode_directory_key(class: &DirectoryClass) -> (key: Vec<u8>)
    ensures
        key@ == directory_key(class@),
{
    match class {
        DirectoryClass::NameToId(name) => with_tail(0, name),
        DirectoryClass::EmailToId(email) => with_tail(1, email),
        DirectoryClass::Principal(id) => {
            let mut key: Vec<u8> = Vec::new();
            key.push(2);
            write_varint_u32(&mut key, *id);
            assert(key@ =~= directory_key(class@));
            key
        },
        DirectoryClass::Domain(domain) => with_tail(3, domain),
        DirectoryClass::UsedQuota(id) => {
            let mut key: Vec<u8> = Vec::new();
            key.push(4);
            write_varint_u32(&mut key, *id);
            assert(key@ =~= directory_key(class@));
            key
        },
        DirectoryClass::MemberOf { principal_id, member_of } => {
            let mut key: Vec<u8> = Vec::new();
            key.push(5);
            write_be_u32(&mut key, *principal_id);
            write_be_u32(&mut key, *member_of);
            assert(key@ =~= directory_key(class@));
            key
        },
        DirectoryClass::Members { principal_id, has_member } => {
            let mut key: Vec<u8> = Vec::new();
            key.push(6);
            write_be_u32(&mut key, *principal_id);
            write_be_u32(&mut key, *has_member);
            assert(key@ =~= directory_key(class@));
            key
        },
    }
}

/// Writes the key of a queue entry.
pub fn encode_queue_key(class: &QueueClass) -> (key: Vec<u8>)
    ensures
        key@ == queue_key(*class),
{
    let mut key: Vec<u8> = Vec::new();
    match class {
        QueueClass::Message(queue_id) => {
            key.push(0);
            write_be_u64(&mut key, *queue_id);
        },
        QueueClass::MessageEvent { due, queue_id } => {
            key.push(1);
            write_be_u64(&mut key, *due);
            write_be_u64(&mut key, *queue_id);
        },
    }
    assert(key@ =~= queue_key(*class));
    key
}

/// Writes the key of a bitmap.
pub fn encode_bitmap_key(class: &BitmapClass) -> (key: Vec<u8>)
    ensures
        key@ == bitmap_key(class@),
{
    let mut key: Vec<u8> = Vec::new();
    match class {
        BitmapClass::DocumentIds => {
            key.push(0);
        },
        BitmapClass::Tag { field, value } => match value {
            TagValue::Id(id) => {
                key.push(1);
                key.push(*field);
                write_be_u32(&mut key, *id);
            },
            TagValue::Text(text) => {
                key.push(2);
                key.push(*field);
                key.extend_from_slice(text.as_slice());
            },
            TagValue::Static(id) => {
                key.push(3);
                key.push(*field);
                key.push(*id);
            },
        },
        BitmapClass::Text { field, len, hash } => {
            key.push(4);
            key.push(*field);
            key.push(*len);
            key.extend_from_slice(hash.as_slice());
        },
    }
    assert(key@ =~= bitmap_key(class@));
    key
}

} // verus!
