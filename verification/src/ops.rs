//! The write operations that a snapshot replays into the destination store,
//! each with its mathematical view.
//!
//! Byte strings are `Vec<u8>` in the executable types and `Seq<u8>` in the
//! views; contracts speak of the views.

use vstd::prelude::*;

verus! {

/// The sentinel of an account or document id that no record has set.
pub const UNSET_ID: u32 = 0xFFFF_FFFF;

/// The sentinel of a collection that no record has set.
pub const UNSET_COLLECTION: u8 = 0xFF;

/// The account, collection and document that a write operation applies to.
#[derive(Clone, Copy, Debug, PartialEq, Eq, Structural)]
pub struct Scope {
    pub account_id: u32,
    pub collection: u8,
    pub document_id: u32,
}

impl Scope {
    /// The scope in which nothing is set.
    pub open spec fn unset_spec() -> Scope {
        Scope { account_id: UNSET_ID, collection: UNSET_COLLECTION, document_id: UNSET_ID }
    }

    /// The scope in which nothing is set.
    pub fn unset() -> (r: Scope)
        ensures
            r == Scope::unset_spec(),
    {
        Scope { account_id: UNSET_ID, collection: UNSET_COLLECTION, document_id: UNSET_ID }
    }

    /// This scope, moved to another document.
    pub open spec fn at_document(self, document_id: u32) -> Scope {
        Scope { account_id: self.account_id, collection: self.collection, document_id }
    }
}

/// What a blob record asks of the metadata store.
#[derive(Clone, Debug, PartialEq, Eq)]
pub enum BlobOp {
    /// References a blob from the document in scope.
    Link { hash: Vec<u8> },
    /// Marks a blob that was just written as persisted.
    Commit { hash: Vec<u8> },
}

pub enum BlobOpView {
    Link { hash: Seq<u8> },
    Commit { hash: Seq<u8> },
}

impl View for BlobOp {
    type V = BlobOpView;

    open spec fn view(&self) -> BlobOpView {
        match *self {
            BlobOp::Link { hash } => BlobOpView::Link { hash: hash@ },
            BlobOp::Commit { hash } => BlobOpView::Commit { hash: hash@ },
        }
    }
}

/// A key of the lookup store: a plain value or a counter.
#[derive(Clone, Debug, PartialEq, Eq)]
pub enum LookupClass {
    Key(Vec<u8>),
    Counter(Vec<u8>),
}

pub enum LookupClassView {
    Key(Seq<u8>),
    Counter(Seq<u8>),
}

impl View for LookupClass {
    type V = LookupClassView;

    open spec fn view(&self) -> LookupClassView {
        match *self {
            LookupClass::Key(k) => LookupClassView::Key(k@),
            LookupClass::Counter(k) => LookupClassView::Counter(k@),
        }
    }
}

/// A key of the directory.
#[derive(Clone, Debug, PartialEq, Eq)]
pub enum DirectoryClass {
    NameToId(Vec<u8>),
    EmailToId(Vec<u8>),
    Principal(u32),
    Domain(Vec<u8>),
    UsedQuota(u32),
    MemberOf { principal_id: u32, member_of: u32 },
    Members { principal_id: u32, has_member: u32 },
}

pub enum DirectoryClassView {
    NameToId(Seq<u8>),
    EmailToId(Seq<u8>),
    Principal(u32),
    Domain(Seq<u8>),
    UsedQuota(u32),
    MemberOf { principal_id: u32, member_of: u32 },
    Members { principal_id: u32, has_member: u32 },
}

impl View for DirectoryClass {
    type V = DirectoryClassView;

    open spec fn view(&self) -> DirectoryClassView {
        match *self {
            DirectoryClass::NameToId(s) => DirectoryClassView::NameToId(s@),
            DirectoryClass::EmailToId(s) => DirectoryClassView::EmailToId(s@),
            DirectoryClass::Principal(id) => DirectoryClassView::Principal(id),
            DirectoryClass::Domain(s) => DirectoryClassView::Domain(s@),
            DirectoryClass::UsedQuota(id) => DirectoryClassView::UsedQuota(id),
            DirectoryClass::MemberOf { principal_id, member_of } => DirectoryClassView::MemberOf {
                principal_id,
                member_of,
            },
            DirectoryClass::Members { principal_id, has_member } => DirectoryClassView::Members {
                principal_id,
                has_member,
            },
        }
    }
}

/// A key of the message queue.
#[derive(Clone, Copy, Debug, PartialEq, Eq, Structural)]
pub enum QueueClass {
    Message(u64),
    MessageEvent { due: u64, queue_id: u64 },
}

/// The value that a tag bitmap is about.
#[derive(Clone, Debug, PartialEq, Eq)]
pub enum TagValue {
    Id(u32),
    Text(Vec<u8>),
    Static(u8),
}

pub enum TagValueView {
    Id(u32),
    Text(Seq<u8>),
    Static(u8),
}

impl View for TagValue {
    type V = TagValueView;

    open spec fn view(&self) -> TagValueView {
        match *self {
            TagValue::Id(id) => TagValueView::Id(id),
            TagValue::Text(t) => TagValueView::Text(t@),
            TagValue::Static(s) => TagValueView::Static(s),
        }
    }
}

/// Which bitmap a membership operation changes. The `hash` of a text token
/// is always eight bytes long.
#[derive(Clone, Debug, PartialEq, Eq)]
pub enum BitmapClass {
    DocumentIds,
    Tag { field: u8, value: TagValue },
    Text { field: u8, len: u8, hash: Vec<u8> },
}

pub enum BitmapClassView {
    DocumentIds,
    Tag { field: u8, value: TagValueView },
    Text { field: u8, len: u8, hash: Seq<u8> },
}

impl View for BitmapClass {
    type V = BitmapClassView;

    open spec fn view(&self) -> BitmapClassView {
        match *self {
            BitmapClass::DocumentIds => BitmapClassView::DocumentIds,
            BitmapClass::Tag { field, value } => BitmapClassView::Tag { field, value: value@ },
            BitmapClass::Text { field, len, hash } => BitmapClassView::Text {
                field,
                len,
                hash: hash@,
            },
        }
    }
}

impl TagValue {
    /// A copy of this value.
    pub fn duplicate(&self) -> (r: TagValue)
        ensures
            r@ == self@,
    {
        match self {
            TagValue::Id(id) => TagValue::Id(*id),
            TagValue::Text(t) => TagValue::Text(t.clone()),
            TagValue::Static(s) => TagValue::Static(*s),
        }
    }
}

impl BitmapClass {
    /// A copy of this class.
    pub fn duplicate(&self) -> (r: BitmapClass)
        ensures
            r@ == self@,
    {
        match self {
            BitmapClass::DocumentIds => BitmapClass::DocumentIds,
            BitmapClass::Tag { field, value } => BitmapClass::Tag {
                field: *field,
                value: value.duplicate(),
            },
            BitmapClass::Text { field, len, hash } => BitmapClass::Text {
                field: *field,
                len: *len,
                hash: hash.clone(),
            },
        }
    }
}

/// The slot of the store that a value operation addresses.
#[derive(Clone, Debug, PartialEq, Eq)]
pub enum ValueClass {
    Property(u8),
    TermIndex,
    Acl(u32),
    Blob(BlobOp),
    Config(Vec<u8>),
    Lookup(LookupClass),
    Directory(DirectoryClass),
    Queue(QueueClass),
}

pub enum ValueClassView {
    Property(u8),
    TermIndex,
    Acl(u32),
    Blob(BlobOpView),
    Config(Seq<u8>),
    Lookup(LookupClassView),
    Directory(DirectoryClassView),
    Queue(QueueClass),
}

impl View for ValueClass {
    type V = ValueClassView;

    open spec fn view(&self) -> ValueClassView {
        match *self {
            ValueClass::Property(field) => ValueClassView::Property(field),
            ValueClass::TermIndex => ValueClassView::TermIndex,
            ValueClass::Acl(grantee) => ValueClassView::Acl(grantee),
            ValueClass::Blob(op) => ValueClassView::Blob(op@),
            ValueClass::Config(key) => ValueClassView::Config(key@),
            ValueClass::Lookup(class) => ValueClassView::Lookup(class@),
            ValueClass::Directory(class) => ValueClassView::Directory(class@),
            ValueClass::Queue(class) => ValueClassView::Queue(class),
        }
    }
}

/// What happens to the addressed slot: it is overwritten, or a signed delta
/// is added to the counter it holds.
#[derive(Clone, Debug, PartialEq, Eq)]
pub enum ValueOp {
    Overwrite(Vec<u8>),
    Add(i64),
}

pub enum ValueOpView {
    Overwrite(Seq<u8>),
    Add(i64),
}

impl View for ValueOp {
    type V = ValueOpView;

    open spec fn view(&self) -> ValueOpView {
        match *self {
            ValueOp::Overwrite(v) => ValueOpView::Overwrite(v@),
            ValueOp::Add(d) => ValueOpView::Add(d),
        }
    }
}

/// One write operation, without the scope it applies to.
#[allow(inconsistent_fields)]
#[derive(Clone, Debug, PartialEq, Eq)]
pub enum Operation {
    Value { class: ValueClass, op: ValueOp },
    Index { field: u8, key: Vec<u8>, set: bool },
    Bitmap { class: BitmapClass, set: bool },
    Log { change_id: u64, collection: u8, set: Vec<u8> },
}

#[allow(inconsistent_fields)]
pub enum OperationView {
    Value { class: ValueClassView, op: ValueOpView },
    Index { field: u8, key: Seq<u8>, set: bool },
    Bitmap { class: BitmapClassView, set: bool },
    Log { change_id: u64, collection: u8, set: Seq<u8> },
}

impl View for Operation {
    type V = OperationView;

    open spec fn view(&self) -> OperationView {
        match *self {
            Operation::Value { class, op } => OperationView::Value { class: class@, op: op@ },
            Operation::Index { field, key, set } => OperationView::Index { field, key: key@, set },
            Operation::Bitmap { class, set } => OperationView::Bitmap { class: class@, set },
            Operation::Log { change_id, collection, set } => OperationView::Log {
                change_id,
                collection,
                set: set@,
            },
        }
    }
}

/// A write operation together with the scope it applies to.
#[derive(Clone, Debug, PartialEq, Eq)]
pub struct ScopedOp {
    pub scope: Scope,
    pub op: Operation,
}

pub struct ScopedOpView {
    pub scope: Scope,
    pub op: OperationView,
}

impl View for ScopedOp {
    type V = ScopedOpView;

    open spec fn view(&self) -> ScopedOpView {
        ScopedOpView { scope: self.scope, op: self.op@ }
    }
}

/// The views of the items of a sequence, in order.
pub open spec fn views<T: View>(s: Seq<T>) -> Seq<T::V> {
    Seq::new(s.len(), |i: int| s[i]@)
}

/// Appending an item appends its view.
pub proof fn lemma_views_push<T: View>(s: Seq<T>, x: T)
    ensures
        views(s.push(x)) == views(s).push(x@),
{
    assert(views(s.push(x)) =~= views(s).push(x@));
}

/// The views of a concatenation are the concatenation of the views.
pub proof fn lemma_views_add<T: View>(a: Seq<T>, b: Seq<T>)
    ensures
        views(a + b) == views(a) + views(b),
{
    assert(views(a + b) =~= views(a) + views(b));
}

} // verus!
