//! The replay of a snapshot: records are read in order under a running
//! context, the operations they stand for are gathered into batches of a
//! bounded size, and every batch becomes one write to the destination store.

use crate::bitmap::bitmap_ids;
use crate::codec::{decode, parse_snapshot, Record, RecordView};
use crate::error::{ErrorKind, RestoreError};
use crate::interpret::{effect_of, interpret, membership_ops, Context, Effect, EffectView};
use crate::ops::{
    lemma_views_add, lemma_views_push, views, Operation, Scope, ScopedOp, ScopedOpView,
};
use vstd::prelude::*;

verus! {

/// The number of operations at which a batch is written to the store.
pub const BATCH_LIMIT: usize = 1000;

/// One call that the replay asks of the stores.
#[derive(Debug, PartialEq, Eq)]
pub enum Action {
    /// Write `data` to the blob store under the content hash `key`.
    PutBlob { key: Vec<u8>, data: Vec<u8> },
    /// Apply the operations to the destination store, in order, as one
    /// write.
    Write(Vec<ScopedOp>),
}

pub enum ActionView {
    PutBlob { key: Seq<u8>, data: Seq<u8> },
    Write(Seq<ScopedOpView>),
}

impl View for Action {
    type V = ActionView;

    open spec fn view(&self) -> ActionView {
        match *self {
            Action::PutBlob { key, data } => ActionView::PutBlob { key: key@, data: data@ },
            Action::Write(ops) => ActionView::Write(views(ops@)),
        }
    }
}

/// The full batches that `s` fills: its consecutive blocks of `BATCH_LIMIT`
/// operations, in order.
pub open spec fn full_batches(s: Seq<ScopedOpView>) -> Seq<Seq<ScopedOpView>> {
    Seq::new(
        s.len() / (BATCH_LIMIT as nat),
        |i: int| s.subrange(i * BATCH_LIMIT, i * BATCH_LIMIT + BATCH_LIMIT),
    )
}

/// What is left of `s` behind its full batches: fewer than `BATCH_LIMIT`
/// operations.
pub open spec fn leftover(s: Seq<ScopedOpView>) -> Seq<ScopedOpView> {
    s.skip((s.len() / (BATCH_LIMIT as nat)) * BATCH_LIMIT)
}

/// One write for each batch, in order.
pub open spec fn writes(batches: Seq<Seq<ScopedOpView>>) -> Seq<ActionView> {
    Seq::new(batches.len(), |i: int| ActionView::Write(batches[i]))
}

/// The write of a blob, where there is one.
pub open spec fn blob_actions(blob: Option<(Seq<u8>, Seq<u8>)>) -> Seq<ActionView> {
    match blob {
        Some((key, data)) => seq![ActionView::PutBlob { key, data }],
        None => Seq::empty(),
    }
}

/// The write of the last batch, unless it is empty.
pub open spec fn final_flush(pending: Seq<ScopedOpView>) -> Seq<ActionView> {
    if pending.len() > 0 {
        seq![ActionView::Write(pending)]
    } else {
        Seq::empty()
    }
}

/// How far a replay has come: the context, the operations of the batch that
/// is being filled, and the actions asked for so far.
pub struct Progress {
    pub ctx: Context,
    pub pending: Seq<ScopedOpView>,
    pub actions: Seq<ActionView>,
}

/// The start of a replay: nothing is set, nothing is pending, nothing was
/// asked for.
pub open spec fn start() -> Progress {
    Progress { ctx: Context::initial_spec(), pending: Seq::empty(), actions: Seq::empty() }
}

/// The progress after the effect of one record. A blob is written at once.
/// The operations join the pending ones; each time `BATCH_LIMIT` of them
/// have come together they are written, and the context stays as it is.
pub open spec fn absorb(p: Progress, e: EffectView) -> Progress {
    let total = p.pending + e.ops(p.ctx.scope);
    Progress {
        ctx: p.ctx,
        pending: leftover(total),
        actions: p.actions + blob_actions(e.blob()) + writes(full_batches(total)),
    }
}

/// The progress after one record, or the defect of that record.
pub open spec fn step(p: Progress, r: RecordView) -> Result<Progress, ErrorKind> {
    match r {
        RecordView::KeyValue(key, value) => match effect_of(p.ctx, key, value, bitmap_ids(value)) {
            Ok(e) => Ok(absorb(p, e)),
            Err(kind) => Err(kind),
        },
        RecordView::KeyOnly(key) => match effect_of(
            p.ctx,
            key,
            Seq::empty(),
            bitmap_ids(Seq::empty()),
        ) {
            Ok(e) => Ok(absorb(p, e)),
            Err(kind) => Err(kind),
        },
        _ => Ok(Progress { ctx: p.ctx.note(r), pending: p.pending, actions: p.actions }),
    }
}

/// The progress after the first `n` records, or the first defect among
/// them with the index of its record.
pub open spec fn replay_prefix(records: Seq<RecordView>, n: int) -> Result<Progress, RestoreError>
    decreases n,
{
    if n <= 0 {
        Ok(start())
    } else {
        match replay_prefix(records, n - 1) {
            Ok(p) => match step(p, records[n - 1]) {
                Ok(q) => Ok(q),
                Err(kind) => Err(RestoreError { kind, record: (n - 1) as usize }),
            },
            Err(e) => Err(e),
        }
    }
}

/// The actions that replaying `records` asks for, in order. What is pending
/// at the end is written last.
pub open spec fn replay_spec(records: Seq<RecordView>) -> Result<Seq<ActionView>, RestoreError> {
    match replay_prefix(records, records.len() as int) {
        Ok(p) => Ok(p.actions + final_flush(p.pending)),
        Err(e) => Err(e),
    }
}

/// The actions that restoring a snapshot file asks for, or the first defect
/// of the file. A defect of the record stream comes before any defect of a
/// key or value.
pub open spec fn restore_spec(data: Seq<u8>) -> Result<Seq<ActionView>, RestoreError> {
    match parse_snapshot(data) {
        Ok(records) => replay_spec(records),
        Err(e) => Err(e),
    }
}

/// A sequence shorter than a batch fills none and is left over whole.
pub proof fn lemma_short_batch(s: Seq<ScopedOpView>)
    requires
        s.len() < BATCH_LIMIT,
    ensures
        full_batches(s) == Seq::<Seq<ScopedOpView>>::empty(),
        leftover(s) == s,
{
    assert(full_batches(s) =~= Seq::<Seq<ScopedOpView>>::empty());
    assert(leftover(s) =~= s);
}

/// What one more operation does to the batches: it joins what is left
/// over, and where that makes a full batch, the batch is closed.
pub proof fn lemma_batches_push(s: Seq<ScopedOpView>, x: ScopedOpView)
    ensures
        leftover(s).len() < BATCH_LIMIT,
        leftover(s).len() + 1 < BATCH_LIMIT ==> full_batches(s.push(x)) == full_batches(s)
            && leftover(s.push(x)) == leftover(s).push(x),
        leftover(s).len() + 1 == BATCH_LIMIT ==> full_batches(s.push(x)) == full_batches(s).push(
            leftover(s).push(x),
        ) && leftover(s.push(x)) == Seq::<ScopedOpView>::empty(),
{
    let limit = BATCH_LIMIT as int;
    let n = s.len() as int;
    let q = n / limit;
    let t = s.push(x);
    assert(n == q * limit + n % limit);
    if n % limit + 1 < limit {
        assert((n + 1) / limit == q);
        assert(full_batches(t) =~= full_batches(s)) by {
            assert forall|i: int| 0 <= i < q implies #[trigger] full_batches(t)[i] == full_batches(
                s,
            )[i] by {
                assert(t.subrange(i * limit, i * limit + limit) =~= s.subrange(
                    i * limit,
                    i * limit + limit,
                ));
            }
        }
        assert(leftover(t) =~= leftover(s).push(x));
    } else {
        assert((n + 1) / limit == q + 1);
        assert(full_batches(t) =~= full_batches(s).push(leftover(s).push(x))) by {
            assert forall|i: int| 0 <= i < q + 1 implies #[trigger] full_batches(t)[i]
                == full_batches(s).push(leftover(s).push(x))[i] by {
                if i < q {
                    assert(t.subrange(i * limit, i * limit + limit) =~= s.subrange(
                        i * limit,
                        i * limit + limit,
                    ));
                } else {
                    assert(t.subrange(q * limit, q * limit + limit) =~= leftover(s).push(x));
                }
            }
        }
        assert(leftover(t) =~= Seq::<ScopedOpView>::empty());
    }
}

/// Appending a batch appends its write.
pub proof fn lemma_writes_push(batches: Seq<Seq<ScopedOpView>>, b: Seq<ScopedOpView>)
    ensures
        writes(batches.push(b)) == writes(batches).push(ActionView::Write(b)),
{
    assert(writes(batches.push(b)) =~= writes(batches).push(ActionView::Write(b)));
}

/// Adds one operation to the pending batch and writes the batch out where
/// that fills it. `total` is everything gathered since `base`.
fn push_op(
    pending: &mut Vec<ScopedOp>,
    actions: &mut Vec<Action>,
    op: ScopedOp,
    Ghost(total): Ghost<Seq<ScopedOpView>>,
    Ghost(base): Ghost<Seq<ActionView>>,
)
    requires
        views(old(pending)@) == leftover(total),
        views(old(actions)@) == base + writes(full_batches(total)),
    ensures
        views(final(pending)@) == leftover(total.push(op@)),
        views(final(actions)@) == base + writes(full_batches(total.push(op@))),
{
    proof {
        lemma_batches_push(total, op@);
        lemma_views_push(pending@, op);
        lemma_writes_push(full_batches(total), leftover(total).push(op@));
    }
    pending.push(op);
    if pending.len() >= BATCH_LIMIT {
        let mut batch: Vec<ScopedOp> = Vec::new();
        std::mem::swap(pending, &mut batch);
        let action = Action::Write(batch);
        proof {
            lemma_views_push(actions@, action);
            assert(views(pending@) =~= Seq::<ScopedOpView>::empty());
            assert((base + writes(full_batches(total))).push(action@) =~= base + writes(
                full_batches(total),
            ).push(action@));
        }
        actions.push(action);
    }
}

/// Carries out the effect of one record read in `scope`.
fn absorb_effect(
    scope: Scope,
    effect: Effect,
    pending: &mut Vec<ScopedOp>,
    actions: &mut Vec<Action>,
)
    requires
        old(pending)@.len() < BATCH_LIMIT,
    ensures
        final(pending)@.len() < BATCH_LIMIT,
        views(final(pending)@) == leftover(views(old(pending)@) + effect@.ops(scope)),
        views(final(actions)@) == views(old(actions)@) + blob_actions(effect@.blob()) + writes(
            full_batches(views(old(pending)@) + effect@.ops(scope)),
        ),
{
    let ghost before = views(pending@);
    let ghost asked = views(actions@);
    proof {
        lemma_short_batch(before);
    }
    match effect {
        Effect::One(op) => {
            let scoped = ScopedOp { scope, op };
            proof {
                assert(asked + writes(full_batches(before)) =~= asked);
                assert(before.push(scoped@) =~= before + effect@.ops(scope));
                assert(asked + blob_actions(effect@.blob()) =~= asked);
            }
            push_op(pending, actions, scoped, Ghost(before), Ghost(asked));
        },
        Effect::Blob { key, data, commit } => {
            let put = Action::PutBlob { key, data };
            let scoped = ScopedOp { scope, op: commit };
            proof {
                lemma_views_push(actions@, put);
                assert(asked.push(put@) + writes(full_batches(before)) =~= asked.push(put@));
                assert(before.push(scoped@) =~= before + effect@.ops(scope));
                assert(asked + blob_actions(effect@.blob()) =~= asked.push(put@));
            }
            actions.push(put);
            push_op(pending, actions, scoped, Ghost(before), Ghost(asked.push(put@)));
        },
        Effect::Members { class, ids } => {
            let ghost members = membership_ops(scope, class@, ids@);
            proof {
                assert(asked + writes(full_batches(before)) =~= asked);
                assert(before + members.take(0) =~= before);
                assert(asked + blob_actions(effect@.blob()) =~= asked);
            }
            let mut i: usize = 0;
            while i < ids.len()
                invariant
                    i <= ids@.len(),
                    members == membership_ops(scope, class@, ids@),
                    views(pending@) == leftover(before + members.take(i as int)),
                    views(actions@) == asked + writes(
                        full_batches(before + members.take(i as int)),
                    ),
                decreases ids@.len() - i,
            {
                let scoped = ScopedOp {
                    scope: Scope {
                        account_id: scope.account_id,
                        collection: scope.collection,
                        document_id: ids[i],
                    },
                    op: Operation::Bitmap { class: class.duplicate(), set: true },
                };
                proof {
                    assert(scoped@ == members[i as int]);
                    assert((before + members.take(i as int)).push(scoped@) =~= before
                        + members.take(i as int + 1));
                }
                push_op(
                    pending,
                    actions,
                    scoped,
                    Ghost(before + members.take(i as int)),
                    Ghost(asked),
                );
                i = i + 1;
            }
            proof {
                assert(members.take(ids@.len() as int) =~= members);
            }
        },
    }
    proof {
        lemma_leftover_short(before + effect@.ops(scope));
        assert(views(pending@).len() == pending@.len());
    }
}

/// What is left over is shorter than a batch.
pub proof fn lemma_leftover_short(s: Seq<ScopedOpView>)
    ensures
        leftover(s).len() < BATCH_LIMIT,
        leftover(s).len() == s.len() % (BATCH_LIMIT as nat),
{
    let limit = BATCH_LIMIT as int;
    let n = s.len() as int;
    assert(n == (n / limit) * limit + n % limit);
}

/// A defect, once met, is the outcome of every longer prefix.
pub proof fn lemma_defect_persists(records: Seq<RecordView>, n: int, m: int)
    requires
        0 <= n <= m,
        replay_prefix(records, n) is Err,
    ensures
        replay_prefix(records, m) == replay_prefix(records, n),
    decreases m - n,
{
    if n < m {
        lemma_defect_persists(records, n, m - 1);
    }
}

/// A result of executable actions, seen through their views.
pub open spec fn lift_actions(r: Result<Vec<Action>, RestoreError>) -> Result<
    Seq<ActionView>,
    RestoreError,
> {
    match r {
        Ok(actions) => Ok(views(actions@)),
        Err(e) => Err(e),
    }
}

/// The progress after a record does not depend on the actions asked for
/// before it: they stay in front of the ones the record adds.
pub proof fn lemma_step_appends(p: Progress, r: RecordView)
    ensures
        match step(Progress { ctx: p.ctx, pending: p.pending, actions: Seq::empty() }, r) {
            Ok(q) => step(p, r) == Ok::<Progress, ErrorKind>(
                Progress { ctx: q.ctx, pending: q.pending, actions: p.actions + q.actions },
            ),
            Err(kind) => step(p, r) == Err::<Progress, ErrorKind>(kind),
        },
{
    let bare = Progress { ctx: p.ctx, pending: p.pending, actions: Seq::empty() };
    match step(bare, r) {
        Ok(q) => {
            let full = step(p, r)->Ok_0;
            assert(full.actions =~= p.actions + q.actions);
        },
        Err(_) => {},
    }
}

/// A replay in progress, fed one record at a time: it holds the context
/// and the operations of the batch that is being filled.
pub struct Replayer {
    ctx: Context,
    pending: Vec<ScopedOp>,
}

impl Replayer {
    #[verifier::type_invariant]
    spec fn inv(self) -> bool {
        self.pending@.len() < BATCH_LIMIT
    }

    /// The context in which the next record is read.
    pub closed spec fn context(self) -> Context {
        self.ctx
    }

    /// The operations gathered since the last write.
    pub closed spec fn pending(self) -> Seq<ScopedOpView> {
        views(self.pending@)
    }

    /// The progress of a replay that stands here and has asked for
    /// `actions`.
    pub open spec fn progress(self, actions: Seq<ActionView>) -> Progress {
        Progress { ctx: self.context(), pending: self.pending(), actions }
    }

    /// A replay at the start of a file.
    pub fn new() -> (r: Replayer)
        ensures
            r.progress(Seq::empty()) == start(),
    {
        let r = Replayer { ctx: Context::initial(), pending: Vec::new() };
        assert(views(r.pending@) =~= Seq::<ScopedOpView>::empty());
        r
    }

    /// Takes the next record and returns the actions that it calls for, to
    /// be performed in order before the next record is fed. A record that
    /// is refused leaves the replay as it was.
    pub fn feed(&mut self, record: Record) -> (r: Result<Vec<Action>, ErrorKind>)
        ensures
            match step(old(self).progress(Seq::empty()), record@) {
                Ok(q) => {
                    &&& r matches Ok(actions)
                    &&& views(actions@) == q.actions
                    &&& final(self).context() == q.ctx
                    &&& final(self).pending() == q.pending
                },
                Err(kind) => {
                    &&& r == Err::<Vec<Action>, ErrorKind>(kind)
                    &&& final(self).context() == old(self).context()
                    &&& final(self).pending() == old(self).pending()
                },
            },
    {
        proof {
            use_type_invariant(&*self);
        }
        let mut actions: Vec<Action> = Vec::new();
        assert(views(actions@) =~= Seq::<ActionView>::empty());
        let ghost none = Seq::<ActionView>::empty();
        match record {
            Record::Family(f) => {
                self.ctx.family = Some(f);
            },
            Record::AccountId(account_id) => {
                self.ctx.scope.account_id = account_id;
            },
            Record::Collection(collection) => {
                self.ctx.scope.collection = collection;
            },
            Record::DocumentId(document_id) => {
                self.ctx.scope.document_id = document_id;
            },
            Record::KeyValue(key, value) => {
                let effect = interpret(&self.ctx, key, value)?;
                let mut pending: Vec<ScopedOp> = Vec::new();
                std::mem::swap(&mut self.pending, &mut pending);
                absorb_effect(self.ctx.scope, effect, &mut pending, &mut actions);
                self.pending = pending;
                assert(none + blob_actions(effect@.blob()) + writes(
                    full_batches(old(self).pending() + effect@.ops(self.ctx.scope)),
                ) =~= views(actions@));
            },
            Record::KeyOnly(key) => {
                let effect = interpret(&self.ctx, key, Vec::new())?;
                let mut pending: Vec<ScopedOp> = Vec::new();
                std::mem::swap(&mut self.pending, &mut pending);
                absorb_effect(self.ctx.scope, effect, &mut pending, &mut actions);
                self.pending = pending;
                assert(none + blob_actions(effect@.blob()) + writes(
                    full_batches(old(self).pending() + effect@.ops(self.ctx.scope)),
                ) =~= views(actions@));
            },
        }
        Ok(actions)
    }

    /// Ends the replay: what is pending is written, unless nothing is.
    pub fn finish(self) -> (actions: Vec<Action>)
        ensures
            views(actions@) == final_flush(self.pending()),
    {
        let mut actions: Vec<Action> = Vec::new();
        let Replayer { ctx: _, pending } = self;
        if pending.len() > 0 {
            let last = Action::Write(pending);
            proof {
                lemma_views_push(actions@, last);
            }
            actions.push(last);
        }
        assert(views(actions@) =~= final_flush(self.pending()));
        actions
    }
}

/// Replays records from the start of a file and returns the actions to
/// perform, in order. Nothing is returned where a record is refused: the
/// error names the first such record.
pub fn replay(records: Vec<Record>) -> (r: Result<Vec<Action>, RestoreError>)
    ensures
        lift_actions(r) == replay_spec(views(records@)),
{
    let ghost all = views(records@);
    let ghost given = records@;
    let count: usize = records.len();
    let mut replayer = Replayer::new();
    let mut actions: Vec<Action> = Vec::new();
    let mut index: usize = 0;
    assert(views(actions@) =~= start().actions);
    for record in it: records
        invariant
            it.seq() == given,
            all == views(given),
            index == it.index(),
            count == given.len(),
            replay_prefix(all, index as int) == Ok::<Progress, RestoreError>(
                replayer.progress(views(actions@)),
            ),
    {
        assert(index < given.len());
        assert(record@ == all[index as int]);
        proof {
            lemma_step_appends(replayer.progress(views(actions@)), all[index as int]);
        }
        match replayer.feed(record) {
            Ok(mut more) => {
                proof {
                    lemma_views_add(actions@, more@);
                }
                actions.append(&mut more);
            },
            Err(kind) => {
                proof {
                    lemma_defect_persists(all, index as int + 1, all.len() as int);
                }
                return Err(RestoreError { kind, record: index });
            },
        }
        index = index + 1;
    }
    let mut last = replayer.finish();
    proof {
        lemma_views_add(actions@, last@);
    }
    actions.append(&mut last);
    Ok(actions)
}

/// Restores one snapshot file: reads its records and replays them. The
/// actions are to be performed in order. A file with a defect yields no
/// action at all.
pub fn restore_file(data: &[u8]) -> (r: Result<Vec<Action>, RestoreError>)
    ensures
        lift_actions(r) == restore_spec(data@),
{
    match decode(data) {
        Ok(records) => replay(records),
        Err(e) => Err(e),
    }
}

/// The defect of one file among several: the index of the file and what is
/// wrong with it.
#[derive(Clone, Copy, Debug, PartialEq, Eq)]
pub struct FileError {
    pub file: usize,
    pub error: RestoreError,
}

/// Restores several snapshot files, each on its own and from a fresh
/// context. Where every file is sound, the outcome holds the actions of
/// each file, in the order of the files; the actions of different files
/// may be performed in any interleaving. Where a file has a defect, the
/// whole restore fails with the first such file, and no action is returned
/// for any file.
pub fn restore(files: &Vec<Vec<u8>>) -> (r: Result<Vec<Vec<Action>>, FileError>)
    ensures
        match r {
            Ok(plans) => plans@.len() == files@.len() && forall|i: int|
                0 <= i < files@.len() ==> restore_spec(#[trigger] files@[i]@) == Ok::<
                    Seq<ActionView>,
                    RestoreError,
                >(views(plans@[i]@)),
            Err(e) => e.file < files@.len() && restore_spec(files@[e.file as int]@) == Err::<
                Seq<ActionView>,
                RestoreError,
            >(e.error) && forall|j: int|
                0 <= j < e.file ==> restore_spec(#[trigger] files@[j]@) is Ok,
        },
{
    let mut plans: Vec<Vec<Action>> = Vec::new();
    let mut i: usize = 0;
    while i < files.len()
        invariant
            i <= files@.len(),
            plans@.len() == i,
            forall|j: int|
                0 <= j < i ==> restore_spec(#[trigger] files@[j]@) == Ok::<
                    Seq<ActionView>,
                    RestoreError,
                >(views(plans@[j]@)),
        decreases files@.len() - i,
    {
        match restore_file(files[i].as_slice()) {
            Ok(plan) => {
                plans.push(plan);
            },
            Err(error) => {
                return Err(FileError { file: i, error });
            },
        }
        i = i + 1;
    }
    Ok(plans)
}

} // verus!
