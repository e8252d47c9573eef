//! Core of a small key-value store replicated through causally ordered
//! operations: an append-only operation graph with ancestry queries, and a
//! materialised multi-value view of the documents.

pub mod types;
pub mod version;
pub mod ancestry;
pub mod op_db;
pub mod view_db;

use vstd::prelude::*;
use crate::ancestry::{
    branch_contains, branch_valid, doc_order_valid, first_doc_op, has_doc_op, lemma_below_unreachable, lemma_doc_op_pos,
    lemma_reaches_push, member_valid, reaches,
};
use crate::op_db::{
    added, doc_parent_ok, lemma_remote_form_resolves, op_admissible, op_present, op_wf, order_below,
    remote_present, resolve, spec_max_seq, OpDb,
};
use crate::types::{
    entries_view, Agent, DocId, DocValue, LocalDocOp, Order, RemoteDocOp, RemoteOperation, RemoteVersion,
    SeqNo, ROOT_AGENT, ROOT_ORDER,
};
use crate::version::{agent_id_of, agent_known, agent_name_of, is_root_agent, root_agent_name};
use crate::view_db::{
    distinct_doc_ids, doc_antichain, doc_covers, doc_value, docs_consistent, docs_sorted,
    forwards_docs, lemma_advance_consistent, lemma_doc_value_valid, lemma_forwards_ok, order_version, lemma_forwards_docs_sorted, lemma_view_wf_push,
    orders_of, sorted_by_order, EntryView, ViewDb,
};

verus! {

/// The first doc op in `entries` that edits `needle`.
pub fn doc_op_entry<'a>(entries: &'a [LocalDocOp], needle: &DocId) -> (r: Option<&'a LocalDocOp>)
    ensures
        match r {
            Some(d) => has_doc_op(entries@, needle@) && *d == entries@[first_doc_op(entries@, needle@)],
            Option::None => !has_doc_op(entries@, needle@),
        },
{
    let mut i: usize = 0;
    while i < entries.len()
        invariant
            i <= entries@.len(),
            forall|j: int| 0 <= j < i ==> entries@[j].id@ != needle@,
        decreases entries@.len() - i,
    {
        if entries[i].id == *needle {
            proof {
                lemma_doc_op_pos(entries@, needle@, 0);
            }
            return Some(&entries[i]);
        }
        i = i + 1;
    }
    proof {
        lemma_doc_op_pos(entries@, needle@, 0);
    }
    Option::None
}

/// Every document stored by a well-formed database is sorted by order.
pub proof fn lemma_docs_sorted(db: &MemDb, id: Seq<char>)
    requires
        db.wf(),
        db.spec_view().spec_docs().contains_key(id),
    ensures
        sorted_by_order(db.spec_view().spec_docs()[id]),
{
}

/// Whether `op` may be ingested by a store `db`: it names parents, does not
/// claim the root agent, fits the id and order ranges, and is stored already
/// or admissible.
pub open spec fn ingestible(db: OpDb, op: RemoteOperation) -> bool {
    &&& op.parents@.len() > 0
    &&& op.version.agent@ != root_agent_name()
    &&& agent_known(db.agents(), op.version.agent@) || db.agents().len() + 1 < ROOT_AGENT
    &&& db.spec_ops().len() + 1 < ROOT_ORDER
    &&& op_present(db.agents(), db.index(), op) || (op_admissible(db.agents(), db.index(), db.spec_ops(), op)
        && edits_distinct(op))
}

/// Whether no two doc ops of `op` edit the same document. The view checks
/// each edit's parents against the document as it stands; an operation that
/// edits a document twice would need the check against its own first edit.
pub open spec fn edits_distinct(op: RemoteOperation) -> bool {
    forall|k1: int, k2: int|
        0 <= k1 < op.doc_ops@.len() && 0 <= k2 < op.doc_ops@.len() && k1 != k2
            ==> (#[trigger] op.doc_ops@[k1]).id@ != (#[trigger] op.doc_ops@[k2]).id@
}

/// Whether no two doc ops of `op` edit the same document.
pub fn check_edits_distinct(op: &RemoteOperation) -> (r: bool)
    ensures
        r == edits_distinct(*op),
{
    let n = op.doc_ops.len();
    let mut i: usize = 0;
    while i < n
        invariant
            n == op.doc_ops@.len(),
            i <= n,
            forall|k1: int, k2: int|
                0 <= k1 < i && 0 <= k2 < n && k1 != k2 ==> (#[trigger] op.doc_ops@[k1]).id@
                    != (#[trigger] op.doc_ops@[k2]).id@,
        decreases n - i,
    {
        let mut j: usize = 0;
        while j < n
            invariant
                n == op.doc_ops@.len(),
                i < n,
                j <= n,
                forall|k2: int| 0 <= k2 < j && i != k2 ==> op.doc_ops@[i as int].id@ != (#[trigger] op.doc_ops@[k2]).id@,
            decreases n - j,
        {
            if i != j && op.doc_ops[i].id == op.doc_ops[j].id {
                return false;
            }
            j = j + 1;
        }
        i = i + 1;
    }
    true
}

/// In a well-formed database no entry of a document's state is a
/// document-scoped ancestor of another.
pub proof fn lemma_docs_antichain(db: &MemDb, id: Seq<char>)
    requires
        db.wf(),
    ensures
        doc_antichain(
            db.spec_op_db().spec_ops(),
            id,
            doc_value(db.spec_view().spec_docs(), id),
        ),
{
    assert(doc_antichain(
        db.spec_op_db().spec_ops(),
        id,
        doc_value(db.spec_view().spec_docs(), id),
    ));
}

/// The operation store and a view that has applied every stored operation.
#[derive(Debug)]
pub struct MemDb {
    op_db: OpDb,
    view: ViewDb,
}

impl Default for MemDb {
    fn default() -> (r: MemDb)
        ensures
            r.wf(),
            r.spec_op_db().agents() == Seq::<Seq<char>>::empty(),
            r.spec_op_db().index() == Map::<(Agent, SeqNo), Order>::empty(),
            r.spec_op_db().spec_ops().len() == 0,
    {
        MemDb::new()
    }
}

impl MemDb {
    pub closed spec fn spec_op_db(&self) -> OpDb {
        self.op_db
    }

    pub closed spec fn spec_view(&self) -> ViewDb {
        self.view
    }

    /// The store and the view are well formed, the view's branch is the
    /// store's frontier, no operation edits a document twice, and every
    /// document is sorted by order and is an antichain that covers its edits.
    pub open spec fn wf(&self) -> bool {
        &&& self.spec_op_db().wf()
        &&& self.spec_view().wf(self.spec_op_db().spec_ops())
        &&& self.spec_view().spec_branch() == self.spec_op_db().spec_frontier()
        &&& docs_sorted(self.spec_view().spec_docs())
        &&& distinct_doc_ids(self.spec_op_db().spec_ops())
        &&& docs_consistent(self.spec_op_db().spec_ops(), self.spec_view().spec_docs())
    }

    pub fn new() -> (r: MemDb)
        ensures
            r.wf(),
            r.spec_op_db().agents() == Seq::<Seq<char>>::empty(),
            r.spec_op_db().index() == Map::<(Agent, SeqNo), Order>::empty(),
            r.spec_op_db().spec_ops().len() == 0,
            r.spec_view().spec_branch() == seq![ROOT_ORDER],
            r.spec_view().spec_docs() == Map::<Seq<char>, Seq<EntryView>>::empty(),
    {
        let r = MemDb { op_db: OpDb::new(), view: ViewDb::new() };
        proof {
            let ops = r.op_db.spec_ops();
            assert forall|id: Seq<char>| #[trigger] doc_value(r.view.spec_docs(), id) == seq![(ROOT_ORDER, Option::<Seq<u8>>::None)] by {}
            assert forall|id: Seq<char>|
                doc_antichain(ops, id, #[trigger] doc_value(r.view.spec_docs(), id))
                    && doc_covers(ops, id, doc_value(r.view.spec_docs(), id)) by {
                let v = doc_value(r.view.spec_docs(), id);
                assert(orders_of(v) =~= seq![ROOT_ORDER]);
            }
        }
        r
    }

    /// The operation store.
    pub fn op_db(&self) -> (r: &OpDb)
        ensures
            *r == self.spec_op_db(),
    {
        &self.op_db
    }

    /// The view.
    pub fn view(&self) -> (r: &ViewDb)
        ensures
            *r == self.spec_view(),
    {
        &self.view
    }

    /// The portable versions of `orders`, which must be valid.
    fn remote_versions(&self, orders: &Vec<Order>) -> (r: Vec<RemoteVersion>)
        requires
            self.wf(),
            branch_valid(self.spec_op_db().spec_ops(), orders@, Option::None),
        ensures
            r@.len() == orders@.len(),
            forall|i: int|
                0 <= i < orders@.len() ==> (#[trigger] r@[i]).agent@ == agent_name_of(
                    self.spec_op_db().agents(),
                    order_version(self.spec_op_db().spec_ops(), orders@[i]).agent,
                ) && r@[i].seq == order_version(self.spec_op_db().spec_ops(), orders@[i]).seq,
    {
        let mut r: Vec<RemoteVersion> = Vec::new();
        let mut i: usize = 0;
        while i < orders.len()
            invariant
                self.wf(),
                branch_valid(self.spec_op_db().spec_ops(), orders@, Option::None),
                i <= orders@.len(),
                r@.len() == i,
                forall|j: int|
                    0 <= j < i ==> (#[trigger] r@[j]).agent@ == agent_name_of(
                        self.spec_op_db().agents(),
                        order_version(self.spec_op_db().spec_ops(), orders@[j]).agent,
                    ) && r@[j].seq == order_version(self.spec_op_db().spec_ops(), orders@[j]).seq,
            decreases orders@.len() - i,
        {
            assert(member_valid(self.spec_op_db().spec_ops(), Option::None, orders@[i as int]));
            r.push(self.op_db.order_to_remote_version(orders[i]));
            i = i + 1;
        }
        r
    }

    /// The operation by which agent `agent` writes `content` to document
    /// `key` on top of what this database holds: the next sequence number of
    /// the agent (0 for its first), its highest one as predecessor, the
    /// current branch as parents, and the current entries of the document as
    /// the edit's parents.
    pub fn local_write_op(&self, agent: &String, key: &DocId, content: Vec<u8>) -> (r: RemoteOperation)
        requires
            self.wf(),
        ensures
            r.version.agent@ == agent@,
            r.succeeds == (if agent_known(self.spec_op_db().agents(), agent@) {
                spec_max_seq(self.spec_op_db().index(), agent_id_of(self.spec_op_db().agents(), agent@))
            } else {
                Option::<SeqNo>::None
            }),
            r.version.seq == match r.succeeds {
                Some(s) => s + 1,
                Option::None => 0,
            },
            r.parents@.len() == self.spec_view().spec_branch().len(),
            forall|i: int|
                0 <= i < r.parents@.len() ==> (#[trigger] r.parents@[i]).agent@ == agent_name_of(
                    self.spec_op_db().agents(),
                    order_version(self.spec_op_db().spec_ops(), self.spec_view().spec_branch()[i]).agent,
                ) && r.parents@[i].seq == order_version(
                    self.spec_op_db().spec_ops(),
                    self.spec_view().spec_branch()[i],
                ).seq,
            r.doc_ops@.len() == 1,
            r.doc_ops@[0].id@ == key@,
            r.doc_ops@[0].patch@ == Some(content@),
            r.doc_ops@[0].parents@.len() == doc_value(self.spec_view().spec_docs(), key@).len(),
            forall|i: int|
                0 <= i < r.doc_ops@[0].parents@.len() ==> (#[trigger] r.doc_ops@[0].parents@[i]).agent@
                    == agent_name_of(
                    self.spec_op_db().agents(),
                    order_version(
                        self.spec_op_db().spec_ops(),
                        doc_value(self.spec_view().spec_docs(), key@)[i].0,
                    ).agent,
                ) && r.doc_ops@[0].parents@[i].seq == order_version(
                    self.spec_op_db().spec_ops(),
                    doc_value(self.spec_view().spec_docs(), key@)[i].0,
                ).seq,
            agent@ != root_agent_name() && (agent_known(self.spec_op_db().agents(), agent@)
                || self.spec_op_db().agents().len() + 1 < ROOT_AGENT) && self.spec_op_db().spec_ops().len()
                + 1 < ROOT_ORDER ==> ingestible(self.spec_op_db(), r),
    {
        let succeeds = match self.op_db.agent_map().try_to_local(agent) {
            Some(a) => self.op_db.max_seq(a),
            Option::None => Option::None,
        };
        let seq: SeqNo = match succeeds {
            Some(s) => s + 1,
            Option::None => 0,
        };
        let vals = self.view.get_cloned(key);
        let mut doc_orders: Vec<Order> = Vec::new();
        let mut i: usize = 0;
        while i < vals.len()
            invariant
                i <= vals@.len(),
                doc_orders@.len() == i,
                forall|j: int| 0 <= j < i ==> #[trigger] doc_orders@[j] == vals@[j].order,
            decreases vals@.len() - i,
        {
            doc_orders.push(vals[i].order);
            i = i + 1;
        }
        proof {
            let ops = self.spec_op_db().spec_ops();
            let dv = doc_value(self.spec_view().spec_docs(), key@);
            lemma_doc_value_valid(ops, self.spec_view().spec_docs(), key@);
            assert forall|j: int| 0 <= j < doc_orders@.len() implies member_valid(ops, Option::None, #[trigger] doc_orders@[j]) by {
                assert(entries_view(vals@)[j] == vals@[j]@);
                assert(doc_order_valid(ops, key@, dv[j].0));
            }
            assert forall|j: int| 0 <= j < doc_orders@.len() implies #[trigger] doc_orders@[j] == dv[j].0 by {
                assert(entries_view(vals@)[j] == vals@[j]@);
            }
        }
        let doc_parents = self.remote_versions(&doc_orders);
        let parents = self.remote_versions(self.view.branch());
        let r = RemoteOperation {
            version: RemoteVersion { agent: agent.clone(), seq },
            succeeds,
            parents,
            doc_ops: vec![RemoteDocOp { id: key.clone(), patch: DocValue::Blob(content), parents: doc_parents }],
        };
        proof {
            let db = self.spec_op_db();
            let ops = db.spec_ops();
            let br = self.spec_view().spec_branch();
            let dv = doc_value(self.spec_view().spec_docs(), key@);
            assert forall|i: int| 0 <= i < r.parents@.len() implies remote_present(
                db.agents(),
                db.index(),
                #[trigger] r.parents@[i],
            ) by {
                assert(member_valid(ops, Option::None, br[i]));
                lemma_remote_form_resolves(&db, br[i], r.parents@[i]);
            }
            assert forall|k: int, j: int|
                0 <= k < r.doc_ops@.len() && 0 <= j < r.doc_ops@[k].parents@.len() implies {
                    let v = #[trigger] r.doc_ops@[k].parents@[j];
                    &&& remote_present(db.agents(), db.index(), v)
                    &&& doc_parent_ok(ops, r.doc_ops@[k].id@, resolve(db.agents(), db.index(), v), ops.len() as int)
                } by {
                assert(k == 0);
                assert(doc_order_valid(ops, key@, dv[j].0));
                lemma_remote_form_resolves(&db, dv[j].0, r.doc_ops@[0].parents@[j]);
            }
            assert(br.len() > 0);
            if !op_present(db.agents(), db.index(), r) {
                assert(op_admissible(db.agents(), db.index(), ops, r));
            }
        }
        r
    }

    /// Ingests `op` when the store can take it, as `apply_and_advance` does;
    /// otherwise returns `None` and changes nothing.
    pub fn try_apply_and_advance(&mut self, op: &RemoteOperation) -> (r: Option<Order>)
        requires
            old(self).wf(),
        ensures
            final(self).wf(),
            r is Some <==> ingestible(old(self).spec_op_db(), *op),
            match r {
                Some(o) => added(old(self).spec_op_db(), final(self).spec_op_db(), *op, o),
                Option::None => *final(self) == *old(self),
            },
    {
        if op.parents.len() == 0 {
            return Option::None;
        }
        if is_root_agent(&op.version.agent) {
            return Option::None;
        }
        let known = self.op_db.agent_map().try_to_local(&op.version.agent).is_some();
        if !known && self.op_db.agent_map().len() as u64 + 1 >= ROOT_AGENT as u64 {
            return Option::None;
        }
        if self.op_db.len() as u64 + 1 >= ROOT_ORDER {
            return Option::None;
        }
        if !self.op_db.contains_operation(op) && !(self.op_db.admits(op) && check_edits_distinct(op)) {
            return Option::None;
        }
        Some(self.apply_and_advance(op))
    }

    /// Ingests an operation: the store adds it, and the view applies it when
    /// it is new. A stored operation gives its order and changes nothing.
    pub fn apply_and_advance(&mut self, op: &RemoteOperation) -> (r: Order)
        requires
            old(self).wf(),
            op.parents@.len() > 0,
            op.version.agent@ != root_agent_name(),
            agent_known(old(self).spec_op_db().agents(), op.version.agent@)
                || old(self).spec_op_db().agents().len() + 1 < ROOT_AGENT,
            old(self).spec_op_db().spec_ops().len() + 1 < ROOT_ORDER,
            op_present(old(self).spec_op_db().agents(), old(self).spec_op_db().index(), *op)
                || (op_admissible(
                old(self).spec_op_db().agents(),
                old(self).spec_op_db().index(),
                old(self).spec_op_db().spec_ops(),
                *op,
            ) && edits_distinct(*op)),
        ensures
            final(self).wf(),
            added(old(self).spec_op_db(), final(self).spec_op_db(), *op, r),
            final(self).spec_view().spec_branch() == final(self).spec_op_db().spec_frontier(),
            final(self).spec_view().spec_docs() == if op_present(
                old(self).spec_op_db().agents(),
                old(self).spec_op_db().index(),
                *op,
            ) {
                old(self).spec_view().spec_docs()
            } else {
                forwards_docs(
                    old(self).spec_view().spec_docs(),
                    final(self).spec_op_db().spec_ops()[r as int].doc_ops@,
                    r,
                )
            },
    {
        let before = self.op_db.len();
        let order = self.op_db.add_operation(op);
        if self.op_db.len() > before {
            proof {
                let ops0 = old(self).op_db.spec_ops();
                let ops1 = self.op_db.spec_ops();
                let lop = ops1[order as int];
                let f = self.view.spec_branch();
                assert(ops1 == ops0.push(lop));
                lemma_view_wf_push(&self.view, ops0, lop);
                assert(op_wf(ops1, self.op_db.agents().len(), order as int));
                assert forall|i: int| 0 <= i < f.len() implies !reaches(ops1, #[trigger] f[i], order, Option::None) by {
                    assert(member_valid(ops0, Option::None, f[i]));
                    if f[i] != ROOT_ORDER {
                        lemma_below_unreachable(ops1, f[i], order, Option::None);
                    }
                }
                assert forall|i: int| 0 <= i < lop.parents@.len() implies branch_contains(
                    ops1,
                    #[trigger] lop.parents@[i],
                    f,
                    Option::None,
                ) by {
                    let p = lop.parents@[i];
                    assert(order_below(p, order as int));
                    if p != ROOT_ORDER {
                        assert(branch_contains(ops0, p, f, Option::None));
                        let j = choose|j: int| 0 <= j < f.len() && reaches(ops0, #[trigger] f[j], p, Option::None);
                        assert(member_valid(ops0, Option::None, f[j]));
                        lemma_reaches_push(ops0, lop, f[j], p, Option::None);
                    }
                }
            }
            proof {
                let ops0 = old(self).op_db.spec_ops();
                let lop = self.op_db.spec_ops()[order as int];
                let ops1 = self.op_db.spec_ops();
                assert(ops1 == ops0.push(lop));
                assert forall|k1: int, k2: int|
                    0 <= k1 < lop.doc_ops@.len() && 0 <= k2 < lop.doc_ops@.len() && k1 != k2
                        implies (#[trigger] lop.doc_ops@[k1]).id@ != (#[trigger] lop.doc_ops@[k2]).id@ by {
                    assert(op.doc_ops@[k1].id@ != op.doc_ops@[k2].id@);
                }
                assert forall|o: int, k1: int, k2: int|
                    0 <= o < ops1.len() && 0 <= k1 < ops1[o].doc_ops@.len() && 0 <= k2 < ops1[o].doc_ops@.len()
                        && k1 != k2 implies (#[trigger] ops1[o].doc_ops@[k1]).id@
                        != (#[trigger] ops1[o].doc_ops@[k2]).id@ by {
                    if o < ops0.len() {
                        assert(ops1[o] == ops0[o]);
                    } else {
                        assert(ops1[o] == lop);
                    }
                }
                assert(op_wf(ops1, self.op_db.agents().len(), order as int));
                lemma_advance_consistent(ops0, lop, old(self).view.spec_docs());
                lemma_forwards_ok(ops0, lop, old(self).view.spec_docs(), lop.doc_ops@.len() as int);
                assert(lop.doc_ops@.subrange(0, lop.doc_ops@.len() as int) =~= lop.doc_ops@);
            }
            self.view.apply_forwards(&self.op_db, order);
            proof {
                lemma_forwards_docs_sorted(
                    old(self).view.spec_docs(),
                    self.op_db.spec_ops()[order as int].doc_ops@,
                    order,
                );
            }
        }
        order
    }
}

} // verus!
