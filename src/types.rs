use vstd::prelude::*;

verus! {

/// Dense local index of an operation, in the order of ingestion.
pub type Order = u64;

/// Per-agent sequence number.
pub type SeqNo = u64;

/// Local id of an agent, as interned by the agent map.
pub type Agent = u32;

/// Opaque document identifier.
pub type DocId = String;

/// The agent id reserved for the root operation.
pub const ROOT_AGENT: Agent = 0xffff_ffff;

/// The order reserved for the root operation.
pub const ROOT_ORDER: Order = 0xffff_ffff_ffff_ffff;

/// Portable version: the agent as a string, and its sequence number.
#[derive(Clone, Debug, PartialEq, Eq, PartialOrd, Ord, Hash)]
pub struct RemoteVersion {
    pub agent: String,
    pub seq: SeqNo,
}

/// Interned version: the agent as a local id, and its sequence number.
#[derive(Clone, Copy, Debug, PartialEq, Eq, Structural, PartialOrd, Ord, Hash)]
pub struct LocalVersion {
    pub agent: Agent,
    pub seq: SeqNo,
}

/// The version of the root operation.
pub open spec fn spec_root_version() -> LocalVersion {
    LocalVersion { agent: ROOT_AGENT, seq: 0 }
}

pub fn root_version() -> (r: LocalVersion)
    ensures
        r == spec_root_version(),
{
    LocalVersion { agent: ROOT_AGENT, seq: 0 }
}

/// An operation as it travels between replicas.
#[derive(Clone, Debug, PartialEq, Eq)]
pub struct RemoteOperation {
    pub version: RemoteVersion,
    /// Sequence number of the previous operation from the same agent; absent
    /// for the agent's first operation.
    pub succeeds: Option<SeqNo>,
    pub parents: Vec<RemoteVersion>,
    pub doc_ops: Vec<RemoteDocOp>,
}

/// An edit of one document, within a remote operation.
#[derive(Clone, Debug, PartialEq, Eq)]
pub struct RemoteDocOp {
    pub id: DocId,
    pub patch: DocValue,
    /// The document heads that this edit supersedes.
    pub parents: Vec<RemoteVersion>,
}

/// An operation as stored: versions replaced by local orders.
#[derive(Clone, Debug, PartialEq, Eq)]
pub struct LocalOperation {
    pub order: Order,
    pub version: LocalVersion,
    pub parents: Vec<Order>,
    pub doc_ops: Vec<LocalDocOp>,
    /// Order of the previous operation from the same agent.
    pub succeeds: Option<Order>,
}

/// An edit of one document, within a stored operation.
#[derive(Clone, Debug, PartialEq, Eq)]
pub struct LocalDocOp {
    pub id: DocId,
    pub patch: DocValue,
    pub parents: Vec<Order>,
}

/// One of the concurrent values of a document, with the order that wrote it.
#[derive(Clone, Debug, PartialEq, Eq)]
pub struct DbValueSingle {
    pub order: Order,
    pub value: DocValue,
}

impl View for DbValueSingle {
    type V = (Order, Option<Seq<u8>>);

    open spec fn view(&self) -> (Order, Option<Seq<u8>>) {
        (self.order, self.value@)
    }
}

impl DbValueSingle {
    /// A copy of this entry.
    pub fn duplicate(&self) -> (r: DbValueSingle)
        ensures
            r@ == self@,
    {
        DbValueSingle { order: self.order, value: self.value.duplicate() }
    }
}

/// The multi-value state of a document, as a view: one pair of order and
/// value per concurrent head.
pub open spec fn entries_view(v: Seq<DbValueSingle>) -> Seq<(Order, Option<Seq<u8>>)> {
    v.map_values(|e: DbValueSingle| e@)
}

/// A copy of a list of entries.
pub fn duplicate_entries(v: &Vec<DbValueSingle>) -> (r: Vec<DbValueSingle>)
    ensures
        entries_view(r@) == entries_view(v@),
{
    let mut r: Vec<DbValueSingle> = Vec::new();
    let mut i: usize = 0;
    while i < v.len()
        invariant
            i <= v@.len(),
            r@.len() == i,
            forall|j: int| 0 <= j < i ==> (#[trigger] r@[j])@ == v@[j]@,
        decreases v@.len() - i,
    {
        r.push(v[i].duplicate());
        i = i + 1;
    }
    assert(entries_view(r@) =~= entries_view(v@));
    r
}

/// An opaque document value.
#[derive(Clone, Debug, PartialEq, Eq)]
pub enum DocValue {
    Empty,
    Blob(Vec<u8>),
}

impl View for DocValue {
    type V = Option<Seq<u8>>;

    open spec fn view(&self) -> Option<Seq<u8>> {
        match self {
            DocValue::Empty => Option::None,
            DocValue::Blob(b) => Some(b@),
        }
    }
}

/// The bytes shown for a value that holds nothing.
pub open spec fn none_bytes() -> Seq<u8> {
    seq![78u8, 111u8, 110u8, 101u8]
}

impl DocValue {
    /// A copy of this value.
    pub fn duplicate(&self) -> (r: DocValue)
        ensures
            r@ == self@,
    {
        match self {
            DocValue::Empty => DocValue::Empty,
            DocValue::Blob(b) => {
                let c = b.clone();
                assert(c@ =~= b@);
                DocValue::Blob(c)
            },
        }
    }

    /// The bytes of the value: the blob itself, or the text `None`.
    pub fn to_bytes(&self) -> (r: Vec<u8>)
        ensures
            r@ == match self@ {
                Option::None => none_bytes(),
                Some(b) => b,
            },
    {
        match self {
            DocValue::Empty => {
                let r: Vec<u8> = vec![78u8, 111u8, 110u8, 101u8];
                assert(r@ =~= none_bytes());
                r
            },
            DocValue::Blob(b) => {
                let c = b.clone();
                assert(c@ =~= b@);
                c
            },
        }
    }
}

} // verus!
