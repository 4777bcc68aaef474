//! What a key-value record does, given the context in which it is read.

use crate::bitmap::{bitmap_ids, decode_bitmap};
use crate::bytes::read_le_i64;
use crate::codec::RecordView;
use crate::error::{lift, ErrorKind};
use crate::family::Family;
use crate::ops::{
    BitmapClass, BitmapClassView, LookupClass, LookupClassView, Operation, OperationView, Scope,
    ScopedOpView, ValueClass, ValueClassView, ValueOp, UNSET_ID,
};
use crate::registry::{
    acl_op, add_delta, bitmap_class, blob_is_link, blob_op, decode_acl, decode_bitmap_key,
    decode_blob, decode_directory, decode_index, decode_log, decode_property, decode_queue,
    directory_op, index_op, log_op, overwrite, property_op, queue_op, term_index_op,
};
use vstd::prelude::*;

verus! {

/// The context that records are read in: the family and the scope that the
/// last context records have set.
#[derive(Clone, Copy, Debug, PartialEq, Eq)]
pub struct Context {
    pub family: Option<Family>,
    pub scope: Scope,
}

impl Context {
    /// The context at the start of a file: nothing is set.
    pub open spec fn initial_spec() -> Context {
        Context { family: None, scope: Scope::unset_spec() }
    }

    /// The context at the start of a file: nothing is set.
    pub fn initial() -> (r: Context)
        ensures
            r == Context::initial_spec(),
    {
        Context { family: None, scope: Scope::unset() }
    }

    /// The context after a record: a context record overrides the one field
    /// it names, and a key leaves the context as it is.
    pub open spec fn note(self, r: RecordView) -> Context {
        match r {
            RecordView::Family(f) => Context { family: Some(f), scope: self.scope },
            RecordView::AccountId(account_id) => Context {
                family: self.family,
                scope: Scope {
                    account_id,
                    collection: self.scope.collection,
                    document_id: self.scope.document_id,
                },
            },
            RecordView::Collection(collection) => Context {
                family: self.family,
                scope: Scope {
                    account_id: self.scope.account_id,
                    collection,
                    document_id: self.scope.document_id,
                },
            },
            RecordView::DocumentId(document_id) => Context {
                family: self.family,
                scope: self.scope.at_document(document_id),
            },
            RecordView::KeyValue(_, _) => self,
            RecordView::KeyOnly(_) => self,
        }
    }
}

/// What one key-value record does.
pub enum EffectView {
    /// One operation in the scope of the record.
    One(OperationView),
    /// The bytes `data` go to the blob store under `key`; `commit` marks
    /// them persisted.
    Blob { key: Seq<u8>, data: Seq<u8>, commit: OperationView },
    /// One membership operation for each id.
    Members { class: BitmapClassView, ids: Seq<u32> },
}

/// One membership operation for each id, in the order of the ids. Each is
/// scoped to the document it adds; account and collection are those of
/// the record.
pub open spec fn membership_ops(scope: Scope, class: BitmapClassView, ids: Seq<u32>) -> Seq<
    ScopedOpView,
> {
    Seq::new(
        ids.len(),
        |i: int|
            ScopedOpView {
                scope: scope.at_document(ids[i]),
                op: OperationView::Bitmap { class, set: true },
            },
    )
}

impl EffectView {
    /// The write operations that the record adds to the batch when it is
    /// read in `scope`, in order.
    pub open spec fn ops(self, scope: Scope) -> Seq<ScopedOpView> {
        match self {
            EffectView::One(op) => seq![ScopedOpView { scope, op }],
            EffectView::Blob { commit, .. } => seq![ScopedOpView { scope, op: commit }],
            EffectView::Members { class, ids } => membership_ops(scope, class, ids),
        }
    }

    /// The key and the bytes that the record writes to the blob store, if
    /// it writes any.
    pub open spec fn blob(self) -> Option<(Seq<u8>, Seq<u8>)> {
        match self {
            EffectView::Blob { key, data, .. } => Some((key, data)),
            _ => None,
        }
    }
}

/// The effect of a single operation, where its key and value are accepted.
pub open spec fn one_or(r: Result<OperationView, ErrorKind>) -> Result<EffectView, ErrorKind> {
    match r {
        Ok(op) => Ok(EffectView::One(op)),
        Err(kind) => Err(kind),
    }
}

/// What a record with this key and value does in context `ctx`. `ids` is
/// what the value holds when read as a bitmap; only the bitmap family looks
/// at it.
pub open spec fn effect_of(ctx: Context, key: Seq<u8>, value: Seq<u8>, ids: Option<Seq<u32>>)
    -> Result<EffectView, ErrorKind> {
    match ctx.family {
        None => Err(ErrorKind::MissingFamily),
        Some(Family::Property) => one_or(property_op(ctx.scope.collection, key, value)),
        Some(Family::TermIndex) => Ok(EffectView::One(term_index_op(key))),
        Some(Family::Acl) => one_or(acl_op(key, value)),
        Some(Family::Blob) => match blob_op(ctx.scope, key) {
            Ok(op) => if blob_is_link(ctx.scope) {
                Ok(EffectView::One(op))
            } else {
                Ok(EffectView::Blob { key, data: value, commit: op })
            },
            Err(kind) => Err(kind),
        },
        Some(Family::Config) => Ok(
            EffectView::One(overwrite(ValueClassView::Config(key), value)),
        ),
        Some(Family::LookupValue) => Ok(
            EffectView::One(overwrite(ValueClassView::Lookup(LookupClassView::Key(key)), value)),
        ),
        Some(Family::LookupCounter) => one_or(
            add_delta(ValueClassView::Lookup(LookupClassView::Counter(key)), value),
        ),
        Some(Family::Directory) => one_or(directory_op(key, value)),
        Some(Family::Queue) => one_or(queue_op(key, value)),
        Some(Family::Index) => one_or(index_op(key)),
        Some(Family::Bitmap) => match ids {
            None => Err(ErrorKind::MalformedValue),
            Some(ids) => match bitmap_class(key) {
                Ok(class) => Ok(EffectView::Members { class, ids }),
                Err(kind) => Err(kind),
            },
        },
        Some(Family::Log) => one_or(log_op(ctx.scope.collection, key, value)),
    }
}

/// What one key-value record does, as the replay carries it out.
#[derive(Debug, PartialEq, Eq)]
pub enum Effect {
    /// One operation in the scope of the record.
    One(Operation),
    /// The bytes `data` go to the blob store under `key`; `commit` marks
    /// them persisted.
    Blob { key: Vec<u8>, data: Vec<u8>, commit: Operation },
    /// One membership operation for each id.
    Members { class: BitmapClass, ids: Vec<u32> },
}

impl View for Effect {
    type V = EffectView;

    open spec fn view(&self) -> EffectView {
        match *self {
            Effect::One(op) => EffectView::One(op@),
            Effect::Blob { key, data, commit } => EffectView::Blob {
                key: key@,
                data: data@,
                commit: commit@,
            },
            Effect::Members { class, ids } => EffectView::Members { class: class@, ids: ids@ },
        }
    }
}

/// The view of ids that may be missing.
pub open spec fn ids_view(ids: Option<Vec<u32>>) -> Option<Seq<u32>> {
    match ids {
        Some(v) => Some(v@),
        None => None,
    }
}

fn one(r: Result<Operation, ErrorKind>) -> (e: Result<Effect, ErrorKind>)
    ensures
        lift(e) == one_or(lift(r)),
{
    match r {
        Ok(op) => Ok(Effect::One(op)),
        Err(kind) => Err(kind),
    }
}

/// Works out what a record does, given what its value holds when read as a
/// bitmap (`None` where it is no bitmap). Only the bitmap family uses `ids`.
pub fn interpret_decoded(ctx: &Context, key: Vec<u8>, value: Vec<u8>, ids: Option<Vec<u32>>) -> (r:
    Result<Effect, ErrorKind>)
    ensures
        lift(r) == effect_of(*ctx, key@, value@, ids_view(ids)),
{
    let scope = ctx.scope;
    let family = match ctx.family {
        Some(f) => f,
        None => {
            return Err(ErrorKind::MissingFamily);
        },
    };
    match family {
        Family::Property => one(decode_property(scope.collection, key.as_slice(), value)),
        Family::TermIndex => Ok(
            Effect::One(
                Operation::Value { class: ValueClass::TermIndex, op: ValueOp::Overwrite(key) },
            ),
        ),
        Family::Acl => one(decode_acl(key.as_slice(), value)),
        Family::Blob => {
            if scope.account_id != UNSET_ID && scope.document_id
                != UNSET_ID {
                one(decode_blob(scope, key))
            } else {
                let hash = key.clone();
                match decode_blob(scope, hash) {
                    Ok(commit) => Ok(Effect::Blob { key, data: value, commit }),
                    Err(kind) => Err(kind),
                }
            }
        },
        Family::Config => Ok(
            Effect::One(
                Operation::Value { class: ValueClass::Config(key), op: ValueOp::Overwrite(value) },
            ),
        ),
        Family::LookupValue => Ok(
            Effect::One(
                Operation::Value {
                    class: ValueClass::Lookup(LookupClass::Key(key)),
                    op: ValueOp::Overwrite(value),
                },
            ),
        ),
        Family::LookupCounter => match read_le_i64(value.as_slice()) {
            Some(delta) => Ok(
                Effect::One(
                    Operation::Value {
                        class: ValueClass::Lookup(LookupClass::Counter(key)),
                        op: ValueOp::Add(delta),
                    },
                ),
            ),
            None => Err(ErrorKind::MalformedValue),
        },
        Family::Directory => one(decode_directory(key.as_slice(), value)),
        Family::Queue => one(decode_queue(key.as_slice(), value)),
        Family::Index => one(decode_index(key.as_slice())),
        Family::Bitmap => match ids {
            None => Err(ErrorKind::MalformedValue),
            Some(ids) => match decode_bitmap_key(key.as_slice()) {
                Ok(class) => Ok(Effect::Members { class, ids }),
                Err(kind) => Err(kind),
            },
        },
        Family::Log => one(decode_log(scope.collection, key.as_slice(), value)),
    }
}

/// Works out what a record does in context `ctx`. The value of a bitmap
/// record is decoded first; in every other family the value is taken as it
/// is.
pub fn interpret(ctx: &Context, key: Vec<u8>, value: Vec<u8>) -> (r: Result<Effect, ErrorKind>)
    ensures
        lift(r) == effect_of(*ctx, key@, value@, bitmap_ids(value@)),
{
    let ids = match ctx.family {
        Some(Family::Bitmap) => decode_bitmap(value.as_slice()),
        _ => None,
    };
    interpret_decoded(ctx, key, value, ids)
}

} // verus!
