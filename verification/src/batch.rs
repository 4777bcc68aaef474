//! A batch as the destination store takes it: a flat list in which the
//! account, the collection and the document are set by operations of their
//! own, and every write applies to what was set last.

use crate::ops::{lemma_views_push, views, Operation, OperationView, Scope, ScopedOp, ScopedOpView};
use vstd::prelude::*;

verus! {

/// One item of a flat batch.
#[derive(Clone, Debug, PartialEq, Eq)]
pub enum BatchOp {
    /// The writes that follow apply to this account.
    AccountId(u32),
    /// The writes that follow apply to this collection.
    Collection(u8),
    /// The writes that follow apply to this document.
    DocumentId(u32),
    /// A write, applied to what was set last.
    Apply(Operation),
}

pub enum BatchOpView {
    AccountId(u32),
    Collection(u8),
    DocumentId(u32),
    Apply(OperationView),
}

impl View for BatchOp {
    type V = BatchOpView;

    open spec fn view(&self) -> BatchOpView {
        match *self {
            BatchOp::AccountId(id) => BatchOpView::AccountId(id),
            BatchOp::Collection(c) => BatchOpView::Collection(c),
            BatchOp::DocumentId(id) => BatchOpView::DocumentId(id),
            BatchOp::Apply(op) => BatchOpView::Apply(op@),
        }
    }
}

/// The scope after an item, for a store that stands in `scope`.
pub open spec fn moved(scope: Scope, item: BatchOpView) -> Scope {
    match item {
        BatchOpView::AccountId(account_id) => Scope {
            account_id,
            collection: scope.collection,
            document_id: scope.document_id,
        },
        BatchOpView::Collection(collection) => Scope {
            account_id: scope.account_id,
            collection,
            document_id: scope.document_id,
        },
        BatchOpView::DocumentId(document_id) => scope.at_document(document_id),
        BatchOpView::Apply(_) => scope,
    }
}

/// The scope after a flat batch, for a store that starts in `start`.
pub open spec fn scope_after(start: Scope, items: Seq<BatchOpView>) -> Scope
    decreases items.len(),
{
    if items.len() == 0 {
        start
    } else {
        moved(scope_after(start, items.drop_last()), items.last())
    }
}

/// The writes of a flat batch, each with the scope it applies to, for a
/// store that starts in `start`.
pub open spec fn applied(start: Scope, items: Seq<BatchOpView>) -> Seq<ScopedOpView>
    decreases items.len(),
{
    if items.len() == 0 {
        Seq::empty()
    } else {
        applied(start, items.drop_last()) + match items.last() {
            BatchOpView::Apply(op) => seq![
                ScopedOpView { scope: scope_after(start, items.drop_last()), op },
            ],
            _ => Seq::empty(),
        }
    }
}

/// The items that set the scope `to`. Behind a write in scope `from`, only
/// what differs is set; at the head of a batch all three are set, so that
/// the batch does not lean on what the store stood in before.
pub open spec fn scope_items(from: Option<Scope>, to: Scope) -> Seq<BatchOpView> {
    let all = from is None;
    (if all || from->Some_0.account_id != to.account_id {
        seq![BatchOpView::AccountId(to.account_id)]
    } else {
        Seq::empty()
    }) + (if all || from->Some_0.collection != to.collection {
        seq![BatchOpView::Collection(to.collection)]
    } else {
        Seq::empty()
    }) + (if all || from->Some_0.document_id != to.document_id {
        seq![BatchOpView::DocumentId(to.document_id)]
    } else {
        Seq::empty()
    })
}

/// The scope of the last of the first `n` operations, if `n` is not zero.
pub open spec fn scope_before(ops: Seq<ScopedOpView>, n: int) -> Option<Scope> {
    if n <= 0 {
        None
    } else {
        Some(ops[n - 1].scope)
    }
}

/// The flat batch of the first `n` operations.
pub open spec fn flat(ops: Seq<ScopedOpView>, n: int) -> Seq<BatchOpView>
    decreases n,
{
    if n <= 0 {
        Seq::empty()
    } else {
        flat(ops, n - 1) + scope_items(scope_before(ops, n - 1), ops[n - 1].scope).push(
            BatchOpView::Apply(ops[n - 1].op),
        )
    }
}

proof fn lemma_applied_add(start: Scope, a: Seq<BatchOpView>, b: Seq<BatchOpView>)
    ensures
        scope_after(start, a + b) == scope_after(scope_after(start, a), b),
        applied(start, a + b) == applied(start, a) + applied(scope_after(start, a), b),
    decreases b.len(),
{
    let mid = scope_after(start, a);
    if b.len() == 0 {
        assert(a + b =~= a);
        assert(applied(start, a) + applied(mid, b) =~= applied(start, a));
    } else {
        lemma_applied_add(start, a, b.drop_last());
        assert((a + b).drop_last() =~= a + b.drop_last());
        assert((a + b).last() == b.last());
        let one = match b.last() {
            BatchOpView::Apply(op) => seq![
                ScopedOpView { scope: scope_after(mid, b.drop_last()), op },
            ],
            _ => Seq::empty(),
        };
        assert((applied(start, a) + applied(mid, b.drop_last())) + one =~= applied(start, a) + (
        applied(mid, b.drop_last()) + one));
    }
}

proof fn lemma_applied_one(start: Scope, item: BatchOpView)
    ensures
        scope_after(start, seq![item]) == moved(start, item),
        applied(start, seq![item]) == match item {
            BatchOpView::Apply(op) => seq![ScopedOpView { scope: start, op }],
            _ => Seq::<ScopedOpView>::empty(),
        },
{
    let s = seq![item];
    let none = Seq::<BatchOpView>::empty();
    assert(s.drop_last() =~= none);
    assert(s.last() == item);
    assert(scope_after(start, none) == start);
    assert(applied(start, none) =~= Seq::<ScopedOpView>::empty());
    let one = match item {
        BatchOpView::Apply(op) => seq![ScopedOpView { scope: start, op }],
        _ => Seq::<ScopedOpView>::empty(),
    };
    assert(applied(start, none) + one =~= one);
}

proof fn lemma_applied_piece(start: Scope, needed: bool, item: BatchOpView)
    requires
        !(item is Apply),
        !needed ==> moved(start, item) == start,
    ensures
        scope_after(start, if needed {
            seq![item]
        } else {
            Seq::empty()
        }) == moved(start, item),
        applied(start, if needed {
            seq![item]
        } else {
            Seq::empty()
        }) == Seq::<ScopedOpView>::empty(),
{
    if needed {
        lemma_applied_one(start, item);
    }
}

proof fn lemma_scope_items(start: Scope, from: Option<Scope>, to: Scope)
    requires
        from matches Some(scope) ==> scope == start,
    ensures
        scope_after(start, scope_items(from, to)) == to,
        applied(start, scope_items(from, to)) == Seq::<ScopedOpView>::empty(),
{
    let all = from is None;
    let a = if all || from->Some_0.account_id != to.account_id {
        seq![BatchOpView::AccountId(to.account_id)]
    } else {
        Seq::empty()
    };
    let c = if all || from->Some_0.collection != to.collection {
        seq![BatchOpView::Collection(to.collection)]
    } else {
        Seq::empty()
    };
    let d = if all || from->Some_0.document_id != to.document_id {
        seq![BatchOpView::DocumentId(to.document_id)]
    } else {
        Seq::empty()
    };
    let s1 = moved(start, BatchOpView::AccountId(to.account_id));
    let s2 = moved(s1, BatchOpView::Collection(to.collection));
    lemma_applied_piece(
        start,
        all || from->Some_0.account_id != to.account_id,
        BatchOpView::AccountId(to.account_id),
    );
    lemma_applied_piece(
        s1,
        all || from->Some_0.collection != to.collection,
        BatchOpView::Collection(to.collection),
    );
    lemma_applied_piece(
        s2,
        all || from->Some_0.document_id != to.document_id,
        BatchOpView::DocumentId(to.document_id),
    );
    lemma_applied_add(start, a, c);
    lemma_applied_add(start, a + c, d);
    let none = Seq::<ScopedOpView>::empty();
    assert(none + none =~= none);
}

proof fn lemma_flat(start: Scope, ops: Seq<ScopedOpView>, n: int)
    requires
        0 <= n <= ops.len(),
    ensures
        applied(start, flat(ops, n)) == ops.take(n),
        n > 0 ==> scope_after(start, flat(ops, n)) == ops[n - 1].scope,
    decreases n,
{
    if n == 0 {
        assert(ops.take(0) =~= Seq::<ScopedOpView>::empty());
    } else {
        lemma_flat(start, ops, n - 1);
        let earlier = flat(ops, n - 1);
        let at = scope_after(start, earlier);
        let op = ops[n - 1];
        let moves = scope_items(scope_before(ops, n - 1), op.scope);
        let apply = BatchOpView::Apply(op.op);
        lemma_scope_items(at, scope_before(ops, n - 1), op.scope);
        lemma_applied_one(op.scope, apply);
        lemma_applied_add(at, moves, seq![apply]);
        assert(moves + seq![apply] =~= moves.push(apply));
        lemma_applied_add(start, earlier, moves.push(apply));
        assert(Seq::<ScopedOpView>::empty() + seq![op] =~= seq![op]);
        assert(ops.take(n - 1) + seq![op] =~= ops.take(n));
    }
}

/// A flat batch says what its operations say: a store that applies the
/// items in order, from whatever scope it stood in, performs the
/// operations of the batch in their order, each in its own scope.
pub proof fn law_flat_batch_is_faithful(start: Scope, ops: Seq<ScopedOpView>)
    ensures
        applied(start, flat(ops, ops.len() as int)) == ops,
{
    lemma_flat(start, ops, ops.len() as int);
    assert(ops.take(ops.len() as int) =~= ops);
}

/// Lays a batch out flat, as the destination store takes it.
pub fn flatten(ops: Vec<ScopedOp>) -> (items: Vec<BatchOp>)
    ensures
        views(items@) == flat(views(ops@), ops@.len() as int),
{
    let ghost given = ops@;
    let ghost all = views(ops@);
    let mut items: Vec<BatchOp> = Vec::new();
    let mut last: Option<Scope> = None;
    assert(views(items@) =~= flat(all, 0));
    for scoped in it: ops
        invariant
            it.seq() == given,
            all == views(given),
            last == scope_before(all, it.index() as int),
            views(items@) == flat(all, it.index() as int),
    {
        assert(scoped@ == all[it.index() as int]);
        let ghost before = views(items@);
        let ScopedOp { scope, op } = scoped;
        let (account, collection, document) = match last {
            Some(from) => (
                from.account_id != scope.account_id,
                from.collection != scope.collection,
                from.document_id != scope.document_id,
            ),
            None => (true, true, true),
        };
        if account {
            let item = BatchOp::AccountId(scope.account_id);
            proof {
                lemma_views_push(items@, item);
            }
            items.push(item);
        }
        if collection {
            let item = BatchOp::Collection(scope.collection);
            proof {
                lemma_views_push(items@, item);
            }
            items.push(item);
        }
        if document {
            let item = BatchOp::DocumentId(scope.document_id);
            proof {
                lemma_views_push(items@, item);
            }
            items.push(item);
        }
        assert(views(items@) =~= before + scope_items(last, scope));
        let item = BatchOp::Apply(op);
        proof {
            lemma_views_push(items@, item);
            assert((before + scope_items(last, scope)).push(item@) =~= before + scope_items(
                last,
                scope,
            ).push(item@));
        }
        items.push(item);
        last = Some(scope);
    }
    items
}

} // verus!
