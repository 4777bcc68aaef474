//! What holds of every snapshot and every replay.

use crate::bitmap::bitmap_ids;
use crate::bytes::{le_i64, varint_u32};
use crate::codec::{
    header_defect, parse_record, parse_records, parse_snapshot, Parsed, RecordView, FILE_VERSION,
    MAGIC_MARKER,
};
use crate::engine::{
    blob_actions, final_flush, full_batches, leftover, lemma_leftover_short, replay_prefix,
    replay_spec, restore_spec, start, step, writes, ActionView, Progress, BATCH_LIMIT,
};
use crate::error::ErrorKind;
use crate::family::Family;
use crate::interpret::{effect_of, Context};
use crate::ops::{
    BitmapClassView, BlobOpView, DirectoryClassView, OperationView, Scope, ScopedOpView,
    ValueClassView, ValueOpView, UNSET_ID,
};
use crate::registry::{bitmap_class, directory_op, BLOB_HASH_LEN};
use vstd::prelude::*;

verus! {

/// A file whose first two bytes are not exactly the magic marker and the
/// format version is refused, whatever follows them: restoring it asks for
/// no action.
pub proof fn law_header_is_checked_first(data: Seq<u8>)
    requires
        data.len() < 2 || data[0] != MAGIC_MARKER || data[1] != FILE_VERSION,
    ensures
        restore_spec(data) is Err,
        restore_spec(data)->Err_0.record == 0,
        restore_spec(data)->Err_0.kind == ErrorKind::BadMagic || restore_spec(data)->Err_0.kind
            == ErrorKind::BadVersion,
{
}

/// A file with a sound header is never refused for its header.
pub proof fn law_sound_header_is_accepted(data: Seq<u8>)
    requires
        data.len() >= 2,
        data[0] == MAGIC_MARKER,
        data[1] == FILE_VERSION,
    ensures
        header_defect(data) is None,
        restore_spec(data) matches Err(e) ==> e.kind != ErrorKind::BadMagic && e.kind
            != ErrorKind::BadVersion,
{
    lemma_no_header_defect_later(data, 2, 0);
    if parse_snapshot(data) is Ok {
        lemma_replay_defects(parse_snapshot(data)->Ok_0, parse_snapshot(data)->Ok_0.len() as int);
    }
}

proof fn lemma_no_header_defect_later(data: Seq<u8>, pos: int, index: int)
    ensures
        parse_records(data, pos, index) matches Err(e) ==> e.kind
            != ErrorKind::BadMagic && e.kind != ErrorKind::BadVersion,
    decreases data.len() - pos,
{
    match parse_record(data, pos) {
        Parsed::Item { next, .. } => {
            if pos < next {
                lemma_no_header_defect_later(data, next, index + 1);
            }
        },
        _ => {},
    }
}

proof fn lemma_replay_defects(records: Seq<RecordView>, n: int)
    ensures
        replay_prefix(records, n) matches Err(e) ==> e.kind != ErrorKind::BadMagic && e.kind
            != ErrorKind::BadVersion,
    decreases n,
{
    if n > 0 {
        lemma_replay_defects(records, n - 1);
    }
}

/// A bitmap record whose value holds the ids `ids` adds exactly one
/// membership operation for each of them, in their order: the i-th sets
/// the membership of document `ids[i]` in the bitmap that the key names,
/// in the account and collection of the record.
pub proof fn law_bitmap_expansion(scope: Scope, key: Seq<u8>, value: Seq<u8>, ids: Seq<u32>)
    ensures
        match effect_of(Context { family: Some(Family::Bitmap), scope }, key, value, Some(ids)) {
            Ok(effect) => {
                let ops = effect.ops(scope);
                &&& effect.blob() is None
                &&& ops.len() == ids.len()
                &&& forall|i: int|
                    0 <= i < ids.len() ==> {
                        &&& (#[trigger] ops[i]).scope == scope.at_document(ids[i])
                        &&& ops[i].op matches OperationView::Bitmap { class, set }
                        &&& set
                        &&& Ok::<BitmapClassView, ErrorKind>(class) == bitmap_class(key)
                    }
            },
            Err(kind) => bitmap_class(key) == Err::<BitmapClassView, ErrorKind>(kind),
        },
{
}

/// A blob record read while both an account and a document are set links
/// the blob and writes nothing to the blob store, whatever value comes with
/// it. Read while either is unset, it writes its value to the blob store
/// under its key and commits it.
pub proof fn law_blob_link_or_commit(
    ctx: Context,
    key: Seq<u8>,
    value: Seq<u8>,
    ids: Option<Seq<u32>>,
)
    requires
        ctx.family == Some(Family::Blob),
        key.len() == BLOB_HASH_LEN,
    ensures
        ctx.scope.account_id != UNSET_ID && ctx.scope.document_id != UNSET_ID ==> {
            &&& effect_of(ctx, key, value, ids) matches Ok(effect)
            &&& effect.blob() is None
            &&& effect.ops(ctx.scope) == seq![
                ScopedOpView {
                    scope: ctx.scope,
                    op: OperationView::Value {
                        class: ValueClassView::Blob(BlobOpView::Link { hash: key }),
                        op: ValueOpView::Overwrite(Seq::empty()),
                    },
                },
            ]
        },
        ctx.scope.account_id == UNSET_ID || ctx.scope.document_id == UNSET_ID ==> {
            &&& effect_of(ctx, key, value, ids) matches Ok(effect)
            &&& effect.blob() == Some((key, value))
            &&& effect.ops(ctx.scope) == seq![
                ScopedOpView {
                    scope: ctx.scope,
                    op: OperationView::Value {
                        class: ValueClassView::Blob(BlobOpView::Commit { hash: key }),
                        op: ValueOpView::Overwrite(Seq::empty()),
                    },
                },
            ]
        },
{
}

/// A directory record of subtype 4 is never an overwrite: where it is
/// accepted, it adds the delta that its value holds to the used quota of
/// the principal that its key names. This goes for every such record,
/// whatever was read before it.
pub proof fn law_used_quota_is_additive(key: Seq<u8>, value: Seq<u8>)
    requires
        key.len() >= 1,
        key[0] == 4,
    ensures
        match directory_op(key, value) {
            Ok(op) => {
                &&& op matches OperationView::Value { class, op: how }
                &&& class matches ValueClassView::Directory(DirectoryClassView::UsedQuota(id))
                &&& Some(id) == varint_u32(key.skip(1))
                &&& how matches ValueOpView::Add(delta)
                &&& Some(delta) == le_i64(value)
            },
            Err(_) => varint_u32(key.skip(1)) is None || le_i64(value)
                is None,
        },
{
}

/// No other directory record is a delta: every other subtype overwrites.
pub proof fn law_other_directory_entries_overwrite(key: Seq<u8>, value: Seq<u8>)
    requires
        key.len() >= 1,
        key[0] != 4,
    ensures
        directory_op(key, value) matches Ok(op) ==> {
            &&& op matches OperationView::Value { class, op: how }
            &&& how == ValueOpView::Overwrite(value)
        },
{
}

/// The context after the records, for a reader that starts in `ctx`.
pub open spec fn context_after(ctx: Context, records: Seq<RecordView>) -> Context
    decreases records.len(),
{
    if records.len() == 0 {
        ctx
    } else {
        context_after(ctx, records.drop_last()).note(records.last())
    }
}

/// The operations that a record adds when it is read in `ctx`.
pub open spec fn record_ops(ctx: Context, r: RecordView) -> Seq<ScopedOpView> {
    match r {
        RecordView::KeyValue(key, value) => match effect_of(ctx, key, value, bitmap_ids(value)) {
            Ok(e) => e.ops(ctx.scope),
            Err(_) => Seq::empty(),
        },
        RecordView::KeyOnly(key) => match effect_of(
            ctx,
            key,
            Seq::empty(),
            bitmap_ids(Seq::empty()),
        ) {
            Ok(e) => e.ops(ctx.scope),
            Err(_) => Seq::empty(),
        },
        _ => Seq::empty(),
    }
}

/// The blob that a record writes when it is read in `ctx`.
pub open spec fn record_blob(ctx: Context, r: RecordView) -> Option<(Seq<u8>, Seq<u8>)> {
    match r {
        RecordView::KeyValue(key, value) => match effect_of(ctx, key, value, bitmap_ids(value)) {
            Ok(e) => e.blob(),
            Err(_) => None,
        },
        RecordView::KeyOnly(key) => match effect_of(
            ctx,
            key,
            Seq::empty(),
            bitmap_ids(Seq::empty()),
        ) {
            Ok(e) => e.blob(),
            Err(_) => None,
        },
        _ => None,
    }
}

/// The defect that a record shows when it is read in `ctx`, if any.
pub open spec fn record_defect(ctx: Context, r: RecordView) -> Option<ErrorKind> {
    match r {
        RecordView::KeyValue(key, value) => match effect_of(ctx, key, value, bitmap_ids(value)) {
            Ok(_) => None,
            Err(kind) => Some(kind),
        },
        RecordView::KeyOnly(key) => match effect_of(
            ctx,
            key,
            Seq::empty(),
            bitmap_ids(Seq::empty()),
        ) {
            Ok(_) => None,
            Err(kind) => Some(kind),
        },
        _ => None,
    }
}

/// Whether no record shows a defect, each read in the context that the
/// records before it have set. The reader starts in `ctx`.
pub open spec fn sound(ctx: Context, records: Seq<RecordView>) -> bool
    decreases records.len(),
{
    records.len() == 0 || (sound(ctx, records.drop_last()) && record_defect(
        context_after(ctx, records.drop_last()),
        records.last(),
    ) is None)
}

/// The operations that the records add, each read in the context that
/// the records before it have set, in the order of the records. The reader
/// starts in `ctx`.
pub open spec fn gathered(ctx: Context, records: Seq<RecordView>) -> Seq<ScopedOpView>
    decreases records.len(),
{
    if records.len() == 0 {
        Seq::empty()
    } else {
        gathered(ctx, records.drop_last()) + record_ops(
            context_after(ctx, records.drop_last()),
            records.last(),
        )
    }
}

/// The blobs that the records write, in the order of the records.
pub open spec fn gathered_blobs(ctx: Context, records: Seq<RecordView>) -> Seq<ActionView>
    decreases records.len(),
{
    if records.len() == 0 {
        Seq::empty()
    } else {
        gathered_blobs(ctx, records.drop_last()) + blob_actions(
            record_blob(context_after(ctx, records.drop_last()), records.last()),
        )
    }
}

/// The operations of the writes among `actions`, one write after the other.
pub open spec fn written(actions: Seq<ActionView>) -> Seq<ScopedOpView>
    decreases actions.len(),
{
    if actions.len() == 0 {
        Seq::empty()
    } else {
        written(actions.drop_last()) + match actions.last() {
            ActionView::Write(ops) => ops,
            ActionView::PutBlob { .. } => Seq::empty(),
        }
    }
}

/// The blob writes among `actions`, in order.
pub open spec fn blobs_put(actions: Seq<ActionView>) -> Seq<ActionView>
    decreases actions.len(),
{
    if actions.len() == 0 {
        Seq::empty()
    } else {
        blobs_put(actions.drop_last()) + match actions.last() {
            ActionView::Write(_) => Seq::empty(),
            ActionView::PutBlob { key, data } => seq![ActionView::PutBlob { key, data }],
        }
    }
}

/// The number of writes among `actions`.
pub open spec fn count_writes(actions: Seq<ActionView>) -> nat
    decreases actions.len(),
{
    if actions.len() == 0 {
        0
    } else {
        count_writes(actions.drop_last()) + if actions.last() is Write {
            1nat
        } else {
            0nat
        }
    }
}

/// Every write among `actions` holds exactly `BATCH_LIMIT` operations.
pub open spec fn all_full(actions: Seq<ActionView>) -> bool {
    forall|i: int|
        0 <= i < actions.len() ==> (#[trigger] actions[i] matches ActionView::Write(ops)
            ==> ops.len() == BATCH_LIMIT)
}

proof fn lemma_written_add(a: Seq<ActionView>, b: Seq<ActionView>)
    ensures
        written(a + b) == written(a) + written(b),
        blobs_put(a + b) == blobs_put(a) + blobs_put(b),
        count_writes(a + b) == count_writes(a) + count_writes(b),
    decreases b.len(),
{
    if b.len() == 0 {
        assert(a + b =~= a);
        assert(written(a) + written(b) =~= written(a));
        assert(blobs_put(a) + blobs_put(b) =~= blobs_put(a));
    } else {
        lemma_written_add(a, b.drop_last());
        assert((a + b).drop_last() =~= a + b.drop_last());
        assert((a + b).last() == b.last());
        let tail = match b.last() {
            ActionView::Write(ops) => ops,
            ActionView::PutBlob { .. } => Seq::empty(),
        };
        assert((written(a) + written(b.drop_last())) + tail =~= written(a) + (written(
            b.drop_last(),
        ) + tail));
        let put = match b.last() {
            ActionView::Write(_) => Seq::empty(),
            ActionView::PutBlob { key, data } => seq![ActionView::PutBlob { key, data }],
        };
        assert((blobs_put(a) + blobs_put(b.drop_last())) + put =~= blobs_put(a) + (blobs_put(
            b.drop_last(),
        ) + put));
    }
}

proof fn lemma_written_batches(s: Seq<ScopedOpView>, k: int)
    requires
        0 <= k <= s.len() / (BATCH_LIMIT as nat),
    ensures
        written(writes(full_batches(s)).take(k)) == s.take(k * BATCH_LIMIT),
        blobs_put(writes(full_batches(s)).take(k)) == Seq::<ActionView>::empty(),
        count_writes(writes(full_batches(s)).take(k)) == k,
        all_full(writes(full_batches(s)).take(k)),
    decreases k,
{
    let w = writes(full_batches(s));
    let limit = BATCH_LIMIT as int;
    let n = s.len() as int;
    assert(n == (n / limit) * limit + n % limit);
    if k == 0 {
        assert(s.take(0) =~= Seq::<ScopedOpView>::empty());
    } else {
        lemma_written_batches(s, k - 1);
        assert(w.take(k).drop_last() =~= w.take(k - 1));
        assert(w.take(k).last() == ActionView::Write(
            s.subrange((k - 1) * limit, (k - 1) * limit + limit),
        ));
        assert(s.take((k - 1) * limit) + s.subrange((k - 1) * limit, (k - 1) * limit + limit)
            =~= s.take(k * limit));
        assert(blobs_put(w.take(k - 1)) + Seq::<ActionView>::empty() =~= Seq::<
            ActionView,
        >::empty());
    }
}

/// The full batches of `s`, written one after the other and followed by
/// what is left over, are `s`.
proof fn lemma_batches_cover(s: Seq<ScopedOpView>)
    ensures
        written(writes(full_batches(s))) + leftover(s) == s,
        blobs_put(writes(full_batches(s))) == Seq::<ActionView>::empty(),
        count_writes(writes(full_batches(s))) == s.len() / (BATCH_LIMIT as nat),
        all_full(writes(full_batches(s))),
{
    let w = writes(full_batches(s));
    let limit = BATCH_LIMIT as int;
    let q = s.len() as int / limit;
    lemma_written_batches(s, q);
    assert(w.take(q) =~= w);
    assert(s.take(q * limit) + leftover(s) =~= s);
}

proof fn lemma_single_action(a: ActionView)
    ensures
        written(seq![a]) == match a {
            ActionView::Write(ops) => ops,
            ActionView::PutBlob { .. } => Seq::empty(),
        },
        blobs_put(seq![a]) == match a {
            ActionView::Write(_) => Seq::<ActionView>::empty(),
            ActionView::PutBlob { .. } => seq![a],
        },
        count_writes(seq![a]) == if a is Write {
            1nat
        } else {
            0nat
        },
{
    let s = seq![a];
    let none = Seq::<ActionView>::empty();
    assert(s.drop_last() =~= none);
    assert(s.last() == a);
    assert(written(none) == Seq::<ScopedOpView>::empty());
    assert(blobs_put(none) == none);
    assert(count_writes(none) == 0);
    match a {
        ActionView::Write(ops) => {
            assert(written(none) + ops =~= ops);
            assert(blobs_put(none) + none =~= none);
        },
        ActionView::PutBlob { key, data } => {
            assert(written(none) + Seq::<ScopedOpView>::empty() =~= Seq::<ScopedOpView>::empty());
            assert(blobs_put(none) + seq![ActionView::PutBlob { key, data }] =~= s);
        },
    }
}

proof fn lemma_blob_actions(blob: Option<(Seq<u8>, Seq<u8>)>)
    ensures
        written(blob_actions(blob)) == Seq::<ScopedOpView>::empty(),
        blobs_put(blob_actions(blob)) == blob_actions(blob),
        count_writes(blob_actions(blob)) == 0,
        all_full(blob_actions(blob)),
{
    match blob {
        Some((key, data)) => {
            lemma_single_action(ActionView::PutBlob { key, data });
        },
        None => {},
    }
}

/// What holds after every record of a replay that has met no defect.
proof fn lemma_replay_invariant(records: Seq<RecordView>, n: int)
    requires
        0 <= n <= records.len(),
        replay_prefix(records, n) is Ok,
    ensures
        ({
            let p = replay_prefix(records, n)->Ok_0;
            let read = records.take(n);
            let ctx = Context::initial_spec();
            &&& p.ctx == context_after(ctx, read)
            &&& written(p.actions) + p.pending == gathered(ctx, read)
            &&& blobs_put(p.actions) == gathered_blobs(ctx, read)
            &&& p.pending.len() < BATCH_LIMIT
            &&& all_full(p.actions)
            &&& count_writes(p.actions) * BATCH_LIMIT + p.pending.len() == gathered(
                ctx,
                read,
            ).len()
        }),
    decreases n,
{
    let ctx = Context::initial_spec();
    let read = records.take(n);
    if n == 0 {
        assert(written(start().actions) + start().pending =~= gathered(ctx, read));
    } else {
        lemma_replay_invariant(records, n - 1);
        let p = replay_prefix(records, n - 1)->Ok_0;
        let q = replay_prefix(records, n)->Ok_0;
        let r = records[n - 1];
        let earlier = records.take(n - 1);
        assert(read.drop_last() =~= earlier);
        assert(read.last() == r);
        assert(step(p, r) == Ok::<Progress, ErrorKind>(q));
        let ops = record_ops(p.ctx, r);
        let blob = record_blob(p.ctx, r);
        if r is KeyValue || r is KeyOnly {
            let total = p.pending + ops;
            let puts = blob_actions(blob);
            let full = writes(full_batches(total));
            assert(q.actions == p.actions + puts + full);
            assert(q.pending == leftover(total));
            lemma_written_add(p.actions + puts, full);
            lemma_written_add(p.actions, puts);
            lemma_blob_actions(blob);
            lemma_batches_cover(total);
            lemma_leftover_short(total);
            assert(written(p.actions + puts) =~= written(p.actions));
            assert(written(q.actions) + q.pending =~= written(p.actions) + (written(full)
                + leftover(total)));
            assert(written(q.actions) + q.pending =~= (written(p.actions) + p.pending) + ops);
            assert(blobs_put(q.actions) =~= blobs_put(p.actions) + puts);
            let limit = BATCH_LIMIT as int;
            let t = total.len() as int;
            assert(t == (t / limit) * limit + t % limit);
        } else {
            assert(gathered(ctx, earlier) + ops =~= gathered(ctx, earlier));
            assert(gathered_blobs(ctx, earlier) + blob_actions(blob) =~= gathered_blobs(
                ctx,
                earlier,
            ));
        }
    }
}

/// Writes preserve the order in which the records are met: the operations
/// of all the batches of a replay, one batch after the other, are the
/// operations of the records, one record after the other, each read in the
/// context set before it. Nothing is dropped, repeated, merged or moved,
/// and a batch that closes leaves the context as it is. The blobs written
/// are those of the records, in the same order.
pub proof fn law_replay_keeps_order(records: Seq<RecordView>)
    requires
        replay_spec(records) is Ok,
    ensures
        written(replay_spec(records)->Ok_0) == gathered(Context::initial_spec(), records),
        blobs_put(replay_spec(records)->Ok_0) == gathered_blobs(
            Context::initial_spec(),
            records,
        ),
{
    let n = records.len() as int;
    lemma_replay_invariant(records, n);
    assert(records.take(n) =~= records);
    let p = replay_prefix(records, n)->Ok_0;
    lemma_written_add(p.actions, final_flush(p.pending));
    let f = final_flush(p.pending);
    if p.pending.len() > 0 {
        lemma_single_action(ActionView::Write(p.pending));
    } else {
        assert(p.pending =~= Seq::<ScopedOpView>::empty());
    }
    assert(blobs_put(p.actions) + blobs_put(f) =~= blobs_put(p.actions));
}

/// A batch is written when it holds `BATCH_LIMIT` operations and at the end
/// of the stream: every write of a replay but the last holds exactly
/// `BATCH_LIMIT` operations, the last holds between one and `BATCH_LIMIT`,
/// and no write is empty. A replay that gathers `t` operations therefore
/// asks for `t / BATCH_LIMIT` writes, rounded up.
pub proof fn law_batches_are_bounded(records: Seq<RecordView>)
    requires
        replay_spec(records) is Ok,
    ensures
        ({
            let actions = replay_spec(records)->Ok_0;
            let total = gathered(Context::initial_spec(), records).len();
            &&& forall|i: int|
                0 <= i < actions.len() ==> (#[trigger] actions[i] matches ActionView::Write(ops)
                    ==> 1 <= ops.len() <= BATCH_LIMIT && (ops.len() < BATCH_LIMIT ==> i
                    == actions.len() - 1))
            &&& count_writes(actions) == (total + BATCH_LIMIT - 1) / (BATCH_LIMIT as int)
        }),
{
    let n = records.len() as int;
    lemma_replay_invariant(records, n);
    assert(records.take(n) =~= records);
    let p = replay_prefix(records, n)->Ok_0;
    let f = final_flush(p.pending);
    let actions = replay_spec(records)->Ok_0;
    lemma_written_add(p.actions, f);
    if p.pending.len() > 0 {
        lemma_single_action(ActionView::Write(p.pending));
    }
    assert forall|i: int| 0 <= i < actions.len() implies (#[trigger] actions[i] matches
        ActionView::Write(ops) ==> 1 <= ops.len() <= BATCH_LIMIT && (ops.len() < BATCH_LIMIT ==> i
        == actions.len() - 1)) by {
        if i < p.actions.len() {
            assert(actions[i] == p.actions[i]);
        }
    }
}

proof fn lemma_replay_sound(records: Seq<RecordView>, n: int)
    requires
        0 <= n <= records.len(),
    ensures
        replay_prefix(records, n) is Ok <==> sound(Context::initial_spec(), records.take(n)),
    decreases n,
{
    let ctx = Context::initial_spec();
    let read = records.take(n);
    if n > 0 {
        lemma_replay_sound(records, n - 1);
        assert(read.drop_last() =~= records.take(n - 1));
        assert(read.last() == records[n - 1]);
        if replay_prefix(records, n - 1) is Ok {
            lemma_replay_invariant(records, n - 1);
        }
    }
}

/// A replay succeeds exactly where no record shows a defect in the
/// context in which it is read.
pub proof fn law_replay_succeeds_on_sound_records(records: Seq<RecordView>)
    ensures
        replay_spec(records) is Ok <==> sound(Context::initial_spec(), records),
{
    lemma_replay_sound(records, records.len() as int);
    assert(records.take(records.len() as int) =~= records);
}

/// Whether an operation marks a blob as persisted.
pub open spec fn is_commit(op: ScopedOpView) -> bool {
    op.op matches OperationView::Value { class, .. } && class matches ValueClassView::Blob(b)
        && b is Commit
}

/// The number of commits among the operations.
pub open spec fn commits(ops: Seq<ScopedOpView>) -> nat
    decreases ops.len(),
{
    if ops.len() == 0 {
        0
    } else {
        commits(ops.drop_last()) + if is_commit(ops.last()) {
            1nat
        } else {
            0nat
        }
    }
}

/// Whether, at every point of `actions`, at least as many blobs have been
/// put as commits have been written.
pub open spec fn puts_lead(actions: Seq<ActionView>) -> bool {
    forall|k: int|
        0 <= k <= actions.len() ==> commits(written(#[trigger] actions.take(k))) <= blobs_put(
            actions.take(k),
        ).len()
}

proof fn lemma_commits_add(a: Seq<ScopedOpView>, b: Seq<ScopedOpView>)
    ensures
        commits(a + b) == commits(a) + commits(b),
    decreases b.len(),
{
    if b.len() == 0 {
        assert(a + b =~= a);
    } else {
        lemma_commits_add(a, b.drop_last());
        assert((a + b).drop_last() =~= a + b.drop_last());
        assert((a + b).last() == b.last());
    }
}

proof fn lemma_commits_prefix(s: Seq<ScopedOpView>, m: int)
    requires
        0 <= m <= s.len(),
    ensures
        commits(s.take(m)) <= commits(s),
{
    lemma_commits_add(s.take(m), s.skip(m));
    assert(s.take(m) + s.skip(m) =~= s);
}

proof fn lemma_commits_one(op: ScopedOpView)
    ensures
        commits(seq![op]) == if is_commit(op) {
            1nat
        } else {
            0nat
        },
{
    assert(seq![op].drop_last() =~= Seq::<ScopedOpView>::empty());
    assert(commits(Seq::<ScopedOpView>::empty()) == 0);
}

proof fn lemma_members_commit_nothing(s: Seq<ScopedOpView>)
    requires
        forall|i: int| 0 <= i < s.len() ==> !is_commit(#[trigger] s[i]),
    ensures
        commits(s) == 0,
    decreases s.len(),
{
    if s.len() > 0 {
        assert forall|i: int| 0 <= i < s.drop_last().len() implies !is_commit(
            #[trigger] s.drop_last()[i],
        ) by {
            assert(s.drop_last()[i] == s[i]);
        }
        lemma_members_commit_nothing(s.drop_last());
    }
}

/// A record commits exactly the blob it puts.
proof fn lemma_record_commits(ctx: Context, r: RecordView)
    ensures
        commits(record_ops(ctx, r)) == blob_actions(record_blob(ctx, r)).len(),
{
    let ops = record_ops(ctx, r);
    if ops.len() == 1 && (ctx.family is Some && !(ctx.family == Some(Family::Bitmap))) {
        assert(ops =~= seq![ops[0]]);
        lemma_commits_one(ops[0]);
    } else if ops.len() == 0 {
    } else {
        lemma_members_commit_nothing(ops);
    }
}

proof fn lemma_absorb_puts_lead(
    asked: Seq<ActionView>,
    pending: Seq<ScopedOpView>,
    ops: Seq<ScopedOpView>,
    blob: Option<(Seq<u8>, Seq<u8>)>,
)
    requires
        puts_lead(asked),
        commits(written(asked)) + commits(pending) == blobs_put(asked).len(),
        commits(ops) == blob_actions(blob).len(),
    ensures
        ({
            let total = pending + ops;
            let after = asked + blob_actions(blob) + writes(full_batches(total));
            &&& puts_lead(after)
            &&& commits(written(after)) + commits(leftover(total)) == blobs_put(after).len()
        }),
{
    let puts = blob_actions(blob);
    let total = pending + ops;
    let full = writes(full_batches(total));
    let head = asked + puts;
    let after = head + full;
    lemma_commits_add(pending, ops);
    lemma_written_add(asked, puts);
    lemma_blob_actions(blob);
    lemma_written_add(head, full);
    lemma_batches_cover(total);
    lemma_commits_add(written(full), leftover(total));
    lemma_commits_add(written(head), written(full));
    assert(written(head) =~= written(asked));
    assert(blobs_put(head) + Seq::<ActionView>::empty() =~= blobs_put(head));
    assert forall|k: int| 0 <= k <= after.len() implies commits(
        written(#[trigger] after.take(k)),
    ) <= blobs_put(after.take(k)).len() by {
        if k <= asked.len() {
            assert(after.take(k) =~= asked.take(k));
        } else if k <= head.len() {
            assert(after.take(k) =~= head);
        } else {
            let j = k - head.len();
            assert(after.take(k) =~= head + full.take(j));
            lemma_written_add(head, full.take(j));
            lemma_written_batches(total, j);
            lemma_commits_prefix(total, j * BATCH_LIMIT);
            lemma_commits_add(written(head), written(full.take(j)));
        }
    }
}

proof fn lemma_puts_lead(records: Seq<RecordView>, n: int)
    requires
        0 <= n <= records.len(),
        replay_prefix(records, n) is Ok,
    ensures
        ({
            let p = replay_prefix(records, n)->Ok_0;
            &&& puts_lead(p.actions)
            &&& commits(written(p.actions)) + commits(p.pending) == blobs_put(p.actions).len()
        }),
    decreases n,
{
    if n == 0 {
        assert forall|k: int| 0 <= k <= start().actions.len() implies commits(
            written(#[trigger] start().actions.take(k)),
        ) <= blobs_put(start().actions.take(k)).len() by {
            assert(start().actions.take(k) =~= Seq::<ActionView>::empty());
        }
    } else {
        lemma_puts_lead(records, n - 1);
        let p = replay_prefix(records, n - 1)->Ok_0;
        let q = replay_prefix(records, n)->Ok_0;
        let r = records[n - 1];
        assert(step(p, r) == Ok::<Progress, ErrorKind>(q));
        if r is KeyValue || r is KeyOnly {
            let ops = record_ops(p.ctx, r);
            let blob = record_blob(p.ctx, r);
            lemma_record_commits(p.ctx, r);
            lemma_absorb_puts_lead(p.actions, p.pending, ops, blob);
            assert(q.actions == p.actions + blob_actions(blob) + writes(
                full_batches(p.pending + ops),
            ));
            assert(q.pending == leftover(p.pending + ops));
        }
    }
}

/// A blob is in the blob store before its commit reaches the destination
/// store: at every point of a replay, at least as many blobs have been put
/// as commits have been written. As blobs and commits keep the order of
/// their records, the put of each blob comes before the write that holds
/// its commit.
pub proof fn law_blobs_are_put_before_their_commit(records: Seq<RecordView>)
    requires
        replay_spec(records) is Ok,
    ensures
        puts_lead(replay_spec(records)->Ok_0),
        commits(written(replay_spec(records)->Ok_0)) == blobs_put(replay_spec(records)->Ok_0).len(),
{
    let n = records.len() as int;
    lemma_puts_lead(records, n);
    let p = replay_prefix(records, n)->Ok_0;
    let f = final_flush(p.pending);
    let actions = replay_spec(records)->Ok_0;
    lemma_written_add(p.actions, f);
    if p.pending.len() > 0 {
        lemma_single_action(ActionView::Write(p.pending));
    }
    lemma_commits_add(written(p.actions), written(f));
    assert(blobs_put(p.actions) + blobs_put(f) =~= blobs_put(p.actions));
    assert forall|k: int| 0 <= k <= actions.len() implies commits(
        written(#[trigger] actions.take(k)),
    ) <= blobs_put(actions.take(k)).len() by {
        if k <= p.actions.len() {
            assert(actions.take(k) =~= p.actions.take(k));
        } else {
            assert(actions.take(k) =~= actions);
        }
    }
}

} // verus!
