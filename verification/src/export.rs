//! The snapshot writer's side of the format: the entries of a snapshot, the
//! context records that must stand before a key so that a replay reads it
//! where it was written, and the entry that stands for an operation.
//!
//! A family record is written before the first key of that family, and an
//! account, collection or document record whenever that value differs from
//! the one last written. Nothing else is written.

use crate::bitmap::bitmap_ids;
use crate::bytes::{
    i64_le_bytes, lemma_be_u32_round_trip, lemma_be_u64_round_trip, lemma_le_i64_round_trip,
    u32_be_bytes, u64_be_bytes, write_be_u32, write_be_u64, write_le_i64,
};
use crate::codec::{Record, RecordView};
use crate::engine::{blob_actions, restore_spec, ActionView};
use crate::error::ErrorKind;
use crate::family::Family;
use crate::interpret::{effect_of, Context, EffectView};
use crate::laws::{
    blobs_put, context_after, gathered, gathered_blobs, law_replay_keeps_order,
    law_replay_succeeds_on_sound_records, record_blob, record_defect, record_ops, sound, written,
};
use crate::ops::{
    lemma_views_push, views, BlobOp, BlobOpView, DirectoryClass, DirectoryClassView, LookupClass,
    LookupClassView, Operation, OperationView, QueueClass, Scope, ScopedOpView, ValueClass,
    ValueClassView, ValueOp, ValueOpView, UNSET_ID,
};
use crate::registry::{
    acl_op, add_delta, blob_is_link, directory_key, directory_op, encode_directory_key,
    encode_queue_key, index_op, law_directory_key_round_trip, law_queue_key_round_trip, log_op,
    overwrite, property_op, queue_key, queue_op, BLOB_HASH_LEN, COLLECTION_MAILBOX,
    PROPERTY_EMAIL_IDS,
};
use crate::writer::{all_fit, encode, law_codec_round_trip, snapshot_bytes};
use vstd::prelude::*;

verus! {

/// A key and its value, with the family and the scope they belong to.
#[derive(Clone, Debug, PartialEq, Eq)]
pub struct Entry {
    pub family: Family,
    pub scope: Scope,
    pub key: Vec<u8>,
    pub value: Vec<u8>,
}

pub struct EntryView {
    pub family: Family,
    pub scope: Scope,
    pub key: Seq<u8>,
    pub value: Seq<u8>,
}

impl View for Entry {
    type V = EntryView;

    open spec fn view(&self) -> EntryView {
        EntryView { family: self.family, scope: self.scope, key: self.key@, value: self.value@ }
    }
}

impl EntryView {
    /// The context in which the entry is to be read.
    pub open spec fn context(self) -> Context {
        Context { family: Some(self.family), scope: self.scope }
    }

    /// The record that carries the key and the value: a key-only record
    /// where the value is empty.
    pub open spec fn key_record(self) -> RecordView {
        if self.value.len() == 0 {
            RecordView::KeyOnly(self.key)
        } else {
            RecordView::KeyValue(self.key, self.value)
        }
    }
}

/// The record `r`, where it is needed.
pub open spec fn when(needed: bool, r: RecordView) -> Seq<RecordView> {
    if needed {
        seq![r]
    } else {
        Seq::empty()
    }
}

/// The context records that take a reader from `ctx` to the context of
/// `e`: one for each field that differs, in the order family, account,
/// collection, document.
pub open spec fn context_records(ctx: Context, e: EntryView) -> Seq<RecordView> {
    when(ctx.family != Some(e.family), RecordView::Family(e.family)) + when(
        ctx.scope.account_id != e.scope.account_id,
        RecordView::AccountId(e.scope.account_id),
    ) + when(
        ctx.scope.collection != e.scope.collection,
        RecordView::Collection(e.scope.collection),
    ) + when(
        ctx.scope.document_id != e.scope.document_id,
        RecordView::DocumentId(e.scope.document_id),
    )
}

/// The records written for `e` behind a stream that has left its reader
/// in `ctx`.
pub open spec fn entry_records(ctx: Context, e: EntryView) -> Seq<RecordView> {
    context_records(ctx, e).push(e.key_record())
}

/// The context that the first `n` entries leave a reader in.
pub open spec fn context_of(entries: Seq<EntryView>, n: int) -> Context {
    if n <= 0 {
        Context::initial_spec()
    } else {
        entries[n - 1].context()
    }
}

/// The records written for the first `n` entries, from the start of a
/// file.
pub open spec fn exported(entries: Seq<EntryView>, n: int) -> Seq<RecordView>
    decreases n,
{
    if n <= 0 {
        Seq::empty()
    } else {
        exported(entries, n - 1) + entry_records(context_of(entries, n - 1), entries[n - 1])
    }
}

/// The keys and values that a reader meets, each with the context it is
/// read in. A key met before any family record is passed over.
pub open spec fn entries_read(ctx: Context, records: Seq<RecordView>) -> Seq<EntryView>
    decreases records.len(),
{
    if records.len() == 0 {
        Seq::empty()
    } else {
        let at = context_after(ctx, records.drop_last());
        entries_read(ctx, records.drop_last()) + match (records.last(), at.family) {
            (RecordView::KeyValue(key, value), Some(family)) => seq![
                EntryView { family, scope: at.scope, key, value },
            ],
            (RecordView::KeyOnly(key), Some(family)) => seq![
                EntryView { family, scope: at.scope, key, value: Seq::empty() },
            ],
            _ => Seq::empty(),
        }
    }
}

/// Whether every context record among `records` changes the context of a
/// reader that starts in `ctx`.
pub open spec fn no_redundant_context(ctx: Context, records: Seq<RecordView>) -> bool
    decreases records.len(),
{
    if records.len() == 0 {
        true
    } else {
        let at = context_after(ctx, records.drop_last());
        no_redundant_context(ctx, records.drop_last()) && (records.last() is KeyValue
            || records.last() is KeyOnly || at.note(records.last()) != at)
    }
}

/// The operations that replaying the first `n` entries adds, each entry
/// read in its own context.
pub open spec fn entry_ops(entries: Seq<EntryView>, n: int) -> Seq<ScopedOpView>
    decreases n,
{
    if n <= 0 {
        Seq::empty()
    } else {
        entry_ops(entries, n - 1) + record_ops(
            entries[n - 1].context(),
            entries[n - 1].key_record(),
        )
    }
}

/// Whether none of the first `n` entries shows a defect when it is read in
/// its own context.
pub open spec fn entries_sound(entries: Seq<EntryView>, n: int) -> bool {
    forall|i: int|
        0 <= i < n ==> record_defect(
            (#[trigger] entries[i]).context(),
            entries[i].key_record(),
        ) is None
}

/// The blobs that replaying the first `n` entries writes.
pub open spec fn entry_blobs(entries: Seq<EntryView>, n: int) -> Seq<ActionView>
    decreases n,
{
    if n <= 0 {
        Seq::empty()
    } else {
        entry_blobs(entries, n - 1) + blob_actions(
            record_blob(entries[n - 1].context(), entries[n - 1].key_record()),
        )
    }
}

/// Reading two runs of records, one after the other.
pub proof fn lemma_read_add(ctx: Context, a: Seq<RecordView>, b: Seq<RecordView>)
    ensures
        context_after(ctx, a + b) == context_after(context_after(ctx, a), b),
        entries_read(ctx, a + b) == entries_read(ctx, a) + entries_read(context_after(ctx, a), b),
        gathered(ctx, a + b) == gathered(ctx, a) + gathered(context_after(ctx, a), b),
        no_redundant_context(ctx, a + b) == (no_redundant_context(ctx, a) && no_redundant_context(
            context_after(ctx, a),
            b,
        )),
        sound(ctx, a + b) == (sound(ctx, a) && sound(context_after(ctx, a), b)),
        gathered_blobs(ctx, a + b) == gathered_blobs(ctx, a) + gathered_blobs(
            context_after(ctx, a),
            b,
        ),
    decreases b.len(),
{
    let mid = context_after(ctx, a);
    if b.len() == 0 {
        assert(a + b =~= a);
        assert(entries_read(ctx, a) + entries_read(mid, b) =~= entries_read(ctx, a));
        assert(gathered(ctx, a) + gathered(mid, b) =~= gathered(ctx, a));
        assert(gathered_blobs(ctx, a) + gathered_blobs(mid, b) =~= gathered_blobs(ctx, a));
    } else {
        lemma_read_add(ctx, a, b.drop_last());
        assert((a + b).drop_last() =~= a + b.drop_last());
        assert((a + b).last() == b.last());
        let at = context_after(mid, b.drop_last());
        let one = match (b.last(), at.family) {
            (RecordView::KeyValue(key, value), Some(family)) => seq![
                EntryView { family, scope: at.scope, key, value },
            ],
            (RecordView::KeyOnly(key), Some(family)) => seq![
                EntryView { family, scope: at.scope, key, value: Seq::empty() },
            ],
            _ => Seq::empty(),
        };
        assert((entries_read(ctx, a) + entries_read(mid, b.drop_last())) + one =~= entries_read(
            ctx,
            a,
        ) + (entries_read(mid, b.drop_last()) + one));
        let ops = record_ops(at, b.last());
        assert((gathered(ctx, a) + gathered(mid, b.drop_last())) + ops =~= gathered(ctx, a) + (
        gathered(mid, b.drop_last()) + ops));
        let puts = blob_actions(record_blob(at, b.last()));
        assert((gathered_blobs(ctx, a) + gathered_blobs(mid, b.drop_last())) + puts
            =~= gathered_blobs(ctx, a) + (gathered_blobs(mid, b.drop_last()) + puts));
    }
}

/// Reading a single record.
pub proof fn lemma_read_one(ctx: Context, r: RecordView)
    ensures
        context_after(ctx, seq![r]) == ctx.note(r),
        gathered(ctx, seq![r]) == record_ops(ctx, r),
        no_redundant_context(ctx, seq![r]) == (r is KeyValue || r is KeyOnly || ctx.note(r)
            != ctx),
        sound(ctx, seq![r]) == (record_defect(ctx, r) is None),
        gathered_blobs(ctx, seq![r]) == blob_actions(record_blob(ctx, r)),
        entries_read(ctx, seq![r]) == match (r, ctx.family) {
            (RecordView::KeyValue(key, value), Some(family)) => seq![
                EntryView { family, scope: ctx.scope, key, value },
            ],
            (RecordView::KeyOnly(key), Some(family)) => seq![
                EntryView { family, scope: ctx.scope, key, value: Seq::empty() },
            ],
            _ => Seq::empty(),
        },
{
    let s = seq![r];
    let none = Seq::<RecordView>::empty();
    assert(s.drop_last() =~= none);
    assert(s.last() == r);
    assert(context_after(ctx, none) == ctx);
    assert(gathered(ctx, none) =~= Seq::<ScopedOpView>::empty());
    assert(entries_read(ctx, none) =~= Seq::<EntryView>::empty());
    assert(no_redundant_context(ctx, none));
    assert(sound(ctx, none));
    assert(gathered(ctx, none) + record_ops(ctx, r) =~= record_ops(ctx, r));
    assert(gathered_blobs(ctx, none) =~= Seq::<ActionView>::empty());
    assert(gathered_blobs(ctx, none) + blob_actions(record_blob(ctx, r)) =~= blob_actions(
        record_blob(ctx, r),
    ));
    let one = match (r, ctx.family) {
        (RecordView::KeyValue(key, value), Some(family)) => seq![
            EntryView { family, scope: ctx.scope, key, value },
        ],
        (RecordView::KeyOnly(key), Some(family)) => seq![
            EntryView { family, scope: ctx.scope, key, value: Seq::empty() },
        ],
        _ => Seq::empty(),
    };
    assert(entries_read(ctx, none) + one =~= one);
}

/// Reading a context record that is written only where needed.
proof fn lemma_read_when(ctx: Context, needed: bool, r: RecordView)
    requires
        !(r is KeyValue) && !(r is KeyOnly),
        needed <==> ctx.note(r) != ctx,
    ensures
        context_after(ctx, when(needed, r)) == ctx.note(r),
        gathered(ctx, when(needed, r)) == Seq::<ScopedOpView>::empty(),
        entries_read(ctx, when(needed, r)) == Seq::<EntryView>::empty(),
        no_redundant_context(ctx, when(needed, r)),
        sound(ctx, when(needed, r)),
        gathered_blobs(ctx, when(needed, r)) == Seq::<ActionView>::empty(),
{
    if needed {
        lemma_read_one(ctx, r);
    }
}

/// The context records of an entry take the reader to the entry's
/// context, add nothing, and none of them is redundant.
pub proof fn lemma_context_records(ctx: Context, e: EntryView)
    ensures
        context_after(ctx, context_records(ctx, e)) == e.context(),
        gathered(ctx, context_records(ctx, e)) == Seq::<ScopedOpView>::empty(),
        entries_read(ctx, context_records(ctx, e)) == Seq::<EntryView>::empty(),
        no_redundant_context(ctx, context_records(ctx, e)),
        sound(ctx, context_records(ctx, e)),
        gathered_blobs(ctx, context_records(ctx, e)) == Seq::<ActionView>::empty(),
{
    let f = when(ctx.family != Some(e.family), RecordView::Family(e.family));
    let a = when(
        ctx.scope.account_id != e.scope.account_id,
        RecordView::AccountId(e.scope.account_id),
    );
    let c = when(
        ctx.scope.collection != e.scope.collection,
        RecordView::Collection(e.scope.collection),
    );
    let d = when(
        ctx.scope.document_id != e.scope.document_id,
        RecordView::DocumentId(e.scope.document_id),
    );
    let c1 = ctx.note(RecordView::Family(e.family));
    let c2 = c1.note(RecordView::AccountId(e.scope.account_id));
    let c3 = c2.note(RecordView::Collection(e.scope.collection));
    lemma_read_when(ctx, ctx.family != Some(e.family), RecordView::Family(e.family));
    lemma_read_when(
        c1,
        ctx.scope.account_id != e.scope.account_id,
        RecordView::AccountId(e.scope.account_id),
    );
    lemma_read_when(
        c2,
        ctx.scope.collection != e.scope.collection,
        RecordView::Collection(e.scope.collection),
    );
    lemma_read_when(
        c3,
        ctx.scope.document_id != e.scope.document_id,
        RecordView::DocumentId(e.scope.document_id),
    );
    lemma_read_add(ctx, f, a);
    lemma_read_add(ctx, f + a, c);
    lemma_read_add(ctx, f + a + c, d);
    let none = Seq::<ScopedOpView>::empty();
    assert(none + none =~= none);
    let no_entry = Seq::<EntryView>::empty();
    assert(no_entry + no_entry =~= no_entry);
    let no_put = Seq::<ActionView>::empty();
    assert(no_put + no_put =~= no_put);
}

/// What holds of the records written for the first `n` entries.
proof fn lemma_exported(entries: Seq<EntryView>, n: int)
    requires
        0 <= n <= entries.len(),
    ensures
        ({
            let start = Context::initial_spec();
            let records = exported(entries, n);
            &&& context_after(start, records) == context_of(entries, n)
            &&& entries_read(start, records) == entries.take(n)
            &&& gathered(start, records) == entry_ops(entries, n)
            &&& no_redundant_context(start, records)
            &&& sound(start, records) == entries_sound(entries, n)
            &&& gathered_blobs(start, records) == entry_blobs(entries, n)
        }),
    decreases n,
{
    let start = Context::initial_spec();
    if n == 0 {
        assert(entries.take(0) =~= Seq::<EntryView>::empty());
    } else {
        lemma_exported(entries, n - 1);
        let e = entries[n - 1];
        let earlier = exported(entries, n - 1);
        let ctx = context_of(entries, n - 1);
        let moves = context_records(ctx, e);
        lemma_context_records(ctx, e);
        lemma_read_add(ctx, moves, seq![e.key_record()]);
        lemma_read_one(e.context(), e.key_record());
        assert(moves + seq![e.key_record()] =~= entry_records(ctx, e));
        lemma_read_add(start, earlier, entry_records(ctx, e));
        if e.value.len() == 0 {
            assert(e.value =~= Seq::<u8>::empty());
        }
        assert(entries_read(e.context(), seq![e.key_record()]) == seq![e]);
        assert(entries_read(ctx, entry_records(ctx, e)) == seq![e]);
        assert(Seq::<EntryView>::empty() + seq![e] =~= seq![e]);
        assert(entries.take(n - 1) + seq![e] =~= entries.take(n));
        assert(Seq::<ScopedOpView>::empty() + record_ops(e.context(), e.key_record())
            =~= record_ops(e.context(), e.key_record()));
        assert(Seq::<ActionView>::empty() + blob_actions(
            record_blob(e.context(), e.key_record()),
        ) =~= blob_actions(record_blob(e.context(), e.key_record())));
    }
}

/// The records written for a sequence of entries are read back as those
/// entries: a reader that starts at the head of the file meets every key
/// and value in the order written, each in the family and scope of its
/// entry, and nothing else.
pub proof fn law_export_is_read_back(entries: Seq<EntryView>)
    ensures
        entries_read(Context::initial_spec(), exported(entries, entries.len() as int)) == entries,
{
    lemma_exported(entries, entries.len() as int);
    assert(entries.take(entries.len() as int) =~= entries);
}

/// Replaying the records written for a sequence of entries adds the
/// operations of each entry, read in the entry's own context, in the order
/// of the entries.
pub proof fn law_export_replays_in_context(entries: Seq<EntryView>)
    ensures
        gathered(Context::initial_spec(), exported(entries, entries.len() as int)) == entry_ops(
            entries,
            entries.len() as int,
        ),
{
    lemma_exported(entries, entries.len() as int);
}

/// No context record is written that a reader does not need: every one of
/// them changes the reader's context.
pub proof fn law_export_is_minimal(entries: Seq<EntryView>)
    ensures
        no_redundant_context(Context::initial_spec(), exported(entries, entries.len() as int)),
{
    lemma_exported(entries, entries.len() as int);
}

/// Writes the records of one entry behind a stream that has left its
/// reader in `ctx`, and moves `ctx` to the context of the entry.
pub fn emit(ctx: &mut Context, entry: Entry, out: &mut Vec<Record>)
    ensures
        views(final(out)@) == views(old(out)@) + entry_records(*old(ctx), entry@),
        *final(ctx) == entry@.context(),
{
    let ghost before = views(out@);
    let ghost e = entry@;
    let ghost c = *ctx;
    let Entry { family, scope, key, value } = entry;
    if !same_family(ctx.family, family) {
        let r = Record::Family(family);
        proof {
            lemma_views_push(out@, r);
        }
        out.push(r);
    }
    if ctx.scope.account_id != scope.account_id {
        let r = Record::AccountId(scope.account_id);
        proof {
            lemma_views_push(out@, r);
        }
        out.push(r);
    }
    if ctx.scope.collection != scope.collection {
        let r = Record::Collection(scope.collection);
        proof {
            lemma_views_push(out@, r);
        }
        out.push(r);
    }
    if ctx.scope.document_id != scope.document_id {
        let r = Record::DocumentId(scope.document_id);
        proof {
            lemma_views_push(out@, r);
        }
        out.push(r);
    }
    assert(views(out@) =~= before + context_records(c, e));
    let r = if value.len() == 0 {
        Record::KeyOnly(key)
    } else {
        Record::KeyValue(key, value)
    };
    proof {
        lemma_views_push(out@, r);
        assert((before + context_records(c, e)).push(e.key_record()) =~= before + entry_records(
            c,
            e,
        ));
    }
    out.push(r);
    *ctx = Context { family: Some(family), scope };
}

fn same_family(current: Option<Family>, family: Family) -> (same: bool)
    ensures
        same == (current == Some(family)),
{
    match current {
        Some(f) => f.tag() == family.tag(),
        None => false,
    }
}

/// The records of a snapshot file that holds the entries, in order.
pub fn export(entries: Vec<Entry>) -> (records: Vec<Record>)
    ensures
        views(records@) == exported(views(entries@), entries@.len() as int),
{
    let ghost given = entries@;
    let ghost all = views(entries@);
    let mut ctx = Context::initial();
    let mut records: Vec<Record> = Vec::new();
    assert(views(records@) =~= exported(all, 0));
    for entry in it: entries
        invariant
            it.seq() == given,
            all == views(given),
            ctx == context_of(all, it.index() as int),
            views(records@) == exported(all, it.index() as int),
    {
        assert(entry@ == all[it.index() as int]);
        emit(&mut ctx, entry, &mut records);
    }
    records
}

/// The value that stands for what is done to a slot: the bytes that
/// overwrite it, or the eight bytes of the delta added to it.
pub open spec fn value_bytes(how: ValueOpView) -> Seq<u8> {
    match how {
        ValueOpView::Overwrite(value) => value,
        ValueOpView::Add(delta) => i64_le_bytes(delta),
    }
}

/// Whether the slot `class` holds a counter when it is addressed in
/// `scope`: the id counter of a mailbox, a lookup counter, a used quota.
pub open spec fn is_counter(scope: Scope, class: ValueClassView) -> bool {
    match class {
        ValueClassView::Property(field) => scope.collection == COLLECTION_MAILBOX && field
            == PROPERTY_EMAIL_IDS,
        ValueClassView::Lookup(LookupClassView::Counter(_)) => true,
        ValueClassView::Directory(DirectoryClassView::UsedQuota(_)) => true,
        _ => false,
    }
}

/// The family and the key under which the slot `class` is written; a
/// blob that is to be committed has none, as its record carries the
/// blob's bytes.
pub open spec fn slot_key(scope: Scope, class: ValueClassView) -> Option<(Family, Seq<u8>)> {
    match class {
        ValueClassView::Property(field) => Some((Family::Property, seq![field])),
        ValueClassView::TermIndex => None,
        ValueClassView::Acl(grantee) => Some((Family::Acl, u32_be_bytes(grantee))),
        ValueClassView::Blob(BlobOpView::Link { hash }) => if hash.len() == BLOB_HASH_LEN
            && blob_is_link(scope) {
            Some((Family::Blob, hash))
        } else {
            None
        },
        ValueClassView::Blob(BlobOpView::Commit { .. }) => None,
        ValueClassView::Config(key) => Some((Family::Config, key)),
        ValueClassView::Lookup(LookupClassView::Key(key)) => Some((Family::LookupValue, key)),
        ValueClassView::Lookup(LookupClassView::Counter(key)) => Some(
            (Family::LookupCounter, key),
        ),
        ValueClassView::Directory(class) => Some((Family::Directory, directory_key(class))),
        ValueClassView::Queue(class) => Some((Family::Queue, queue_key(class))),
    }
}

/// The entry that stands for one operation in `scope`, for the operations
/// that a single record can stand for. A counter takes a delta and every
/// other slot an overwrite; a link carries no value; a term index is its
/// own key; an index entry is set; a log entry is in the collection of its
/// scope. Membership operations have no entry of their own, as a bitmap
/// record stands for many of them, and neither has the commit of a blob.
pub open spec fn entry_of(scope: Scope, op: OperationView) -> Option<EntryView> {
    match op {
        OperationView::Value { class, op: how } => if class is TermIndex {
            match how {
                ValueOpView::Overwrite(index) => Some(
                    EntryView { family: Family::TermIndex, scope, key: index, value: Seq::empty() },
                ),
                ValueOpView::Add(_) => None,
            }
        } else {
            match slot_key(scope, class) {
                Some((family, key)) => if is_counter(scope, class) != (how is Add) || (
                class is Blob && how != ValueOpView::Overwrite(Seq::empty())) {
                    None
                } else {
                    Some(EntryView { family, scope, key, value: value_bytes(how) })
                },
                None => None,
            }
        },
        OperationView::Index { field, key, set } => if set {
            Some(
                EntryView {
                    family: Family::Index,
                    scope,
                    key: seq![field] + key,
                    value: Seq::empty(),
                },
            )
        } else {
            None
        },
        OperationView::Bitmap { .. } => None,
        OperationView::Log { change_id, collection, set } => if collection == scope.collection {
            Some(
                EntryView { family: Family::Log, scope, key: u64_be_bytes(change_id), value: set },
            )
        } else {
            None
        },
    }
}

proof fn lemma_value_read_back(class: ValueClassView, how: ValueOpView)
    ensures
        how matches ValueOpView::Add(delta) ==> add_delta(class, value_bytes(how)) == Ok::<
            OperationView,
            ErrorKind,
        >(OperationView::Value { class, op: how }),
        how is Overwrite ==> overwrite(class, value_bytes(how)) == (OperationView::Value {
            class,
            op: how,
        }),
{
    match how {
        ValueOpView::Add(delta) => {
            lemma_le_i64_round_trip(delta);
        },
        _ => {},
    }
}

proof fn lemma_property_read_back(scope: Scope, field: u8, how: ValueOpView)
    requires
        is_counter(scope, ValueClassView::Property(field)) == (how is Add),
    ensures
        property_op(scope.collection, seq![field], value_bytes(how)) == Ok::<
            OperationView,
            ErrorKind,
        >(OperationView::Value { class: ValueClassView::Property(field), op: how }),
{
    lemma_value_read_back(ValueClassView::Property(field), how);
}

proof fn lemma_acl_read_back(grantee: u32, value: Seq<u8>)
    ensures
        acl_op(u32_be_bytes(grantee), value) == Ok::<OperationView, ErrorKind>(
            overwrite(ValueClassView::Acl(grantee), value),
        ),
{
    let key = u32_be_bytes(grantee);
    assert(key.subrange(0, 4) =~= key);
    lemma_be_u32_round_trip(key, 0, grantee);
}

proof fn lemma_directory_read_back(class: DirectoryClassView, how: ValueOpView)
    requires
        (class is UsedQuota) == (how is Add),
    ensures
        directory_op(directory_key(class), value_bytes(how)) == Ok::<OperationView, ErrorKind>(
            OperationView::Value { class: ValueClassView::Directory(class), op: how },
        ),
{
    law_directory_key_round_trip(class);
    lemma_value_read_back(ValueClassView::Directory(class), how);
}

proof fn lemma_queue_read_back(class: QueueClass, value: Seq<u8>)
    ensures
        queue_op(queue_key(class), value) == Ok::<OperationView, ErrorKind>(
            overwrite(ValueClassView::Queue(class), value),
        ),
{
    law_queue_key_round_trip(class);
}

proof fn lemma_index_read_back(field: u8, key: Seq<u8>)
    ensures
        index_op(seq![field] + key) == Ok::<OperationView, ErrorKind>(
            OperationView::Index { field, key, set: true },
        ),
{
    assert((seq![field] + key).skip(1) =~= key);
}

proof fn lemma_log_read_back(collection: u8, change_id: u64, value: Seq<u8>)
    ensures
        log_op(collection, u64_be_bytes(change_id), value) == Ok::<OperationView, ErrorKind>(
            OperationView::Log { change_id, collection, set: value },
        ),
{
    let key = u64_be_bytes(change_id);
    assert(key.subrange(0, 8) =~= key);
    lemma_be_u64_round_trip(key, 0, change_id);
}

proof fn lemma_slot_read_back(
    scope: Scope,
    class: ValueClassView,
    how: ValueOpView,
    ids: Option<Seq<u32>>,
)
    requires
        !(class is TermIndex),
        entry_of(scope, OperationView::Value { class, op: how }) is Some,
    ensures
        ({
            let e = entry_of(scope, OperationView::Value { class, op: how })->Some_0;
            effect_of(e.context(), e.key, e.value, ids) == Ok::<EffectView, ErrorKind>(
                EffectView::One(OperationView::Value { class, op: how }),
            )
        }),
{
    lemma_value_read_back(class, how);
    match class {
        ValueClassView::Property(field) => {
            lemma_property_read_back(scope, field, how);
        },
        ValueClassView::Acl(grantee) => {
            lemma_acl_read_back(grantee, value_bytes(how));
        },
        ValueClassView::Directory(c) => {
            lemma_directory_read_back(c, how);
        },
        ValueClassView::Queue(c) => {
            lemma_queue_read_back(c, value_bytes(how));
        },
        _ => {},
    }
}

/// The entry of an operation is read back as that operation, in the same
/// scope, and as nothing else: it writes no blob.
pub proof fn law_entry_round_trip(scope: Scope, op: OperationView, ids: Option<Seq<u32>>)
    requires
        entry_of(scope, op) is Some,
    ensures
        ({
            let e = entry_of(scope, op)->Some_0;
            &&& e.scope == scope
            &&& effect_of(e.context(), e.key, e.value, ids) == Ok::<EffectView, ErrorKind>(
                EffectView::One(op),
            )
        }),
{
    match op {
        OperationView::Value { class, op: how } => {
            if !(class is TermIndex) {
                lemma_slot_read_back(scope, class, how, ids);
            }
        },
        OperationView::Index { field, key, set } => {
            lemma_index_read_back(field, key);
        },
        OperationView::Bitmap { .. } => {},
        OperationView::Log { change_id, collection, set } => {
            lemma_log_read_back(collection, change_id, set);
        },
    }
}

/// Whether each operation has an entry of its own.
pub open spec fn describable(ops: Seq<ScopedOpView>) -> bool {
    forall|i: int| 0 <= i < ops.len() ==> entry_of((#[trigger] ops[i]).scope, ops[i].op) is Some
}

/// The entries of the operations, in order.
pub open spec fn entries_of(ops: Seq<ScopedOpView>) -> Seq<EntryView> {
    Seq::new(ops.len(), |i: int| entry_of(ops[i].scope, ops[i].op)->Some_0)
}

proof fn lemma_entries_replay(ops: Seq<ScopedOpView>, n: int)
    requires
        describable(ops),
        0 <= n <= ops.len(),
    ensures
        entry_ops(entries_of(ops), n) == ops.take(n),
        entry_blobs(entries_of(ops), n) == Seq::<ActionView>::empty(),
        entries_sound(entries_of(ops), n),
    decreases n,
{
    let entries = entries_of(ops);
    if n == 0 {
        assert(ops.take(0) =~= Seq::<ScopedOpView>::empty());
    } else {
        lemma_entries_replay(ops, n - 1);
        assert forall|i: int| 0 <= i < n implies record_defect(
            (#[trigger] entries[i]).context(),
            entries[i].key_record(),
        ) is None by {
            lemma_entry_record(ops[i].scope, ops[i].op);
        }
        lemma_entry_record(ops[n - 1].scope, ops[n - 1].op);
        assert(ops.take(n - 1) + seq![ops[n - 1]] =~= ops.take(n));
        assert(Seq::<ActionView>::empty() + Seq::<ActionView>::empty() =~= Seq::<
            ActionView,
        >::empty());
    }
}

proof fn lemma_entry_record(scope: Scope, op: OperationView)
    requires
        entry_of(scope, op) is Some,
    ensures
        ({
            let e = entry_of(scope, op)->Some_0;
            &&& record_ops(e.context(), e.key_record()) == seq![ScopedOpView { scope, op }]
            &&& record_blob(e.context(), e.key_record()) is None
            &&& record_defect(e.context(), e.key_record()) is None
        }),
{
    let e = entry_of(scope, op)->Some_0;
    if e.value.len() == 0 {
        assert(e.value =~= Seq::<u8>::empty());
        law_entry_round_trip(scope, op, bitmap_ids(Seq::empty()));
    } else {
        law_entry_round_trip(scope, op, bitmap_ids(e.value));
    }
}

/// A snapshot written from entries restores to what the entries say, in
/// every family: where no entry shows a defect in its own context and
/// every key and value fits its length prefix, the file is accepted, the
/// operations of its batches are those of the entries, and the blobs it
/// puts are those of the entries, all in the order of the entries.
pub proof fn law_export_round_trip(entries: Seq<EntryView>)
    requires
        entries_sound(entries, entries.len() as int),
        all_fit(exported(entries, entries.len() as int)),
    ensures
        ({
            let n = entries.len() as int;
            &&& restore_spec(snapshot_bytes(exported(entries, n))) matches Ok(actions)
            &&& written(actions) == entry_ops(entries, n)
            &&& blobs_put(actions) == entry_blobs(entries, n)
        }),
{
    let n = entries.len() as int;
    let records = exported(entries, n);
    law_codec_round_trip(records);
    lemma_exported(entries, n);
    law_replay_succeeds_on_sound_records(records);
    law_replay_keeps_order(records);
}

/// Writing and restoring gives back what was written: a snapshot that
/// holds the entries of a sequence of operations is accepted, restoring it
/// writes no blob, and the operations of its batches, one batch after the
/// other, are the operations written, each in its scope and in the order
/// written.
pub proof fn law_round_trip(ops: Seq<ScopedOpView>)
    requires
        describable(ops),
        all_fit(exported(entries_of(ops), ops.len() as int)),
    ensures
        ({
            let records = exported(entries_of(ops), ops.len() as int);
            &&& restore_spec(snapshot_bytes(records)) matches Ok(actions)
            &&& written(actions) == ops
            &&& blobs_put(actions) == Seq::<ActionView>::empty()
        }),
{
    let n = ops.len() as int;
    lemma_entries_replay(ops, n);
    law_export_round_trip(entries_of(ops));
    assert(ops.take(n) =~= ops);
}

fn value_of(how: ValueOp) -> (value: Vec<u8>)
    ensures
        value@ == value_bytes(how@),
{
    match how {
        ValueOp::Overwrite(value) => value,
        ValueOp::Add(delta) => {
            let mut value: Vec<u8> = Vec::new();
            write_le_i64(&mut value, delta);
            assert(value@ =~= i64_le_bytes(delta));
            value
        },
    }
}

fn slot_entry(family: Family, scope: Scope, key: Vec<u8>, how: ValueOp, counter: bool) -> (r:
    Option<Entry>)
    ensures
        counter != (how@ is Add) ==> r is None,
        counter == (how@ is Add) ==> (r matches Some(e) && e@ == (EntryView {
            family,
            scope,
            key: key@,
            value: value_bytes(how@),
        })),
{
    let add = match &how {
        ValueOp::Add(_) => true,
        ValueOp::Overwrite(_) => false,
    };
    if counter != add {
        None
    } else {
        Some(Entry { family, scope, key, value: value_of(how) })
    }
}

/// The entry that stands for one operation in `scope`, where a single
/// record can stand for it.
pub fn describe(scope: Scope, op: Operation) -> (r: Option<Entry>)
    ensures
        match r {
            Some(e) => entry_of(scope, op@) == Some(e@),
            None => entry_of(scope, op@) is None,
        },
{
    match op {
        Operation::Value { class, op: how } => match class {
            ValueClass::TermIndex => match how {
                ValueOp::Overwrite(index) => Some(
                    Entry { family: Family::TermIndex, scope, key: index, value: Vec::new() },
                ),
                ValueOp::Add(_) => None,
            },
            ValueClass::Property(field) => {
                let counter = scope.collection == COLLECTION_MAILBOX && field
                    == PROPERTY_EMAIL_IDS;
                let mut key: Vec<u8> = Vec::new();
                key.push(field);
                assert(key@ =~= seq![field]);
                slot_entry(Family::Property, scope, key, how, counter)
            },
            ValueClass::Acl(grantee) => {
                let mut key: Vec<u8> = Vec::new();
                write_be_u32(&mut key, grantee);
                assert(key@ =~= u32_be_bytes(grantee));
                slot_entry(Family::Acl, scope, key, how, false)
            },
            ValueClass::Blob(BlobOp::Link { hash }) => {
                let linked = scope.account_id != UNSET_ID && scope.document_id
                    != UNSET_ID;
                match how {
                    ValueOp::Overwrite(value) => {
                        if hash.len() == BLOB_HASH_LEN && linked && value.len() == 0 {
                            assert(value@ =~= Seq::<u8>::empty());
                            Some(Entry { family: Family::Blob, scope, key: hash, value })
                        } else {
                            None
                        }
                    },
                    ValueOp::Add(_) => None,
                }
            },
            ValueClass::Blob(BlobOp::Commit { .. }) => None,
            ValueClass::Config(key) => slot_entry(Family::Config, scope, key, how, false),
            ValueClass::Lookup(LookupClass::Key(key)) => slot_entry(
                Family::LookupValue,
                scope,
                key,
                how,
                false,
            ),
            ValueClass::Lookup(LookupClass::Counter(key)) => slot_entry(
                Family::LookupCounter,
                scope,
                key,
                how,
                true,
            ),
            ValueClass::Directory(class) => {
                let counter = match &class {
                    DirectoryClass::UsedQuota(_) => true,
                    _ => false,
                };
                let key = encode_directory_key(&class);
                slot_entry(Family::Directory, scope, key, how, counter)
            },
            ValueClass::Queue(class) => {
                let key = encode_queue_key(&class);
                slot_entry(Family::Queue, scope, key, how, false)
            },
        },
        Operation::Index { field, key, set } => {
            if set {
                let mut full: Vec<u8> = Vec::new();
                full.push(field);
                full.extend_from_slice(key.as_slice());
                assert(full@ =~= seq![field] + key@);
                Some(Entry { family: Family::Index, scope, key: full, value: Vec::new() })
            } else {
                None
            }
        },
        Operation::Bitmap { .. } => None,
        Operation::Log { change_id, collection, set } => {
            if collection == scope.collection {
                let mut key: Vec<u8> = Vec::new();
                write_be_u64(&mut key, change_id);
                assert(key@ =~= u64_be_bytes(change_id));
                Some(Entry { family: Family::Log, scope, key, value: set })
            } else {
                None
            }
        },
    }
}

/// The bytes of a snapshot file that holds the entries, in order. There
/// is no such file where a key or a value is too long for its length
/// prefix.
pub fn write_snapshot(entries: Vec<Entry>) -> (r: Option<Vec<u8>>)
    ensures
        ({
            let records = exported(views(entries@), entries@.len() as int);
            match r {
                Some(bytes) => all_fit(records) && bytes@ == snapshot_bytes(records),
                None => !all_fit(records),
            }
        }),
{
    let records = export(entries);
    encode(&records)
}

} // verus!
