use vstd::prelude::*;
use std::collections::{BTreeMap, BTreeSet};
use crate::ancestry::{
    branch_contains, branch_reaches, branch_valid, first_doc_op, has_doc_op, lemma_bounded_set_len,
    lemma_closed_unreachable, lemma_doc_op_pos, lemma_retain_no_dup, lemma_below_unreachable, lemma_pop_contains, lemma_reaches_push,
    lemma_reaches_step, lemma_reaches_trans, lemma_retain_not_in, member_valid, next_orders,
    order_valid, reaches, retain_not_in,
};
use crate::types::{
    spec_root_version, root_version, Agent, DocId, LocalDocOp, LocalOperation, LocalVersion, Order,
    RemoteOperation, RemoteVersion, SeqNo, ROOT_AGENT, ROOT_ORDER,
};
use crate::version::{
    agent_id_of, agent_id_valid, agent_known, agent_name_of, agent_names_wf, names_after_intern,
    lemma_agent_round_trip, lemma_index_of_distinct, root_agent_name, AgentMap,
};
use crate::doc_op_entry;

verus! {

/// The key of a local version in the version index.
pub open spec fn version_key(v: LocalVersion) -> (Agent, SeqNo) {
    (v.agent, v.seq)
}

/// Whether `p` may be a parent of the operation at `o`.
pub open spec fn order_below(p: u64, o: int) -> bool {
    p < o || p == ROOT_ORDER
}

/// Whether `p` may be a parent, for document `id`, of the operation at `o`.
pub open spec fn doc_parent_ok(ops: Seq<LocalOperation>, id: Seq<char>, p: u64, o: int) -> bool {
    p == ROOT_ORDER || (p < o && has_doc_op(ops[p as int].doc_ops@, id))
}

/// The stored operation at `o` is well formed.
pub open spec fn op_wf(ops: Seq<LocalOperation>, n_agents: nat, o: int) -> bool {
    let op = ops[o];
    &&& op.order == o
    &&& op.version.agent < n_agents
    &&& op.parents@.len() > 0
    &&& forall|i: int| 0 <= i < op.parents@.len() ==> order_below(#[trigger] op.parents@[i], o)
    &&& (op.succeeds matches Some(s) ==> s < o)
    &&& forall|k: int, j: int|
        0 <= k < op.doc_ops@.len() && 0 <= j < op.doc_ops@[k].parents@.len() ==> doc_parent_ok(
            ops,
            op.doc_ops@[k].id@,
            #[trigger] op.doc_ops@[k].parents@[j],
            o,
        )
}

/// Every stored operation is well formed, and the orders stay below the root.
pub open spec fn ops_wf(ops: Seq<LocalOperation>, n_agents: nat) -> bool {
    &&& ops.len() < ROOT_ORDER
    &&& forall|o: int| 0 <= o < ops.len() ==> #[trigger] op_wf(ops, n_agents, o)
}

/// The version index maps each stored version to the order of its operation,
/// and holds nothing else.
pub open spec fn index_wf(index: Map<(Agent, SeqNo), Order>, ops: Seq<LocalOperation>) -> bool {
    &&& forall|k: (Agent, SeqNo)| #[trigger]
        index.contains_key(k) ==> index[k] < ops.len() && version_key(ops[index[k] as int].version) == k
    &&& forall|o: int|
        0 <= o < ops.len() ==> index.contains_key(version_key(#[trigger] ops[o].version))
            && index[version_key(ops[o].version)] == o
}

/// Whether some stored operation names `o` among its parents.
pub open spec fn is_parent(ops: Seq<LocalOperation>, o: u64) -> bool {
    exists|x: int| 0 <= x < ops.len() && (#[trigger] ops[x].parents@).contains(o)
}

/// The frontier is a non-empty branch of valid orders, without repeats, that
/// contains every stored operation, and whose members are exactly the
/// operations no other names as parent (the root alone, while nothing is
/// stored).
pub open spec fn frontier_wf(ops: Seq<LocalOperation>, frontier: Seq<Order>) -> bool {
    &&& frontier.len() > 0
    &&& branch_valid(ops, frontier, Option::None)
    &&& forall|o: u64| o < ops.len() ==> #[trigger] branch_contains(ops, o, frontier, Option::None)
    &&& forall|o: u64| o < ops.len() && !is_parent(ops, o) ==> #[trigger] frontier.contains(o)
    &&& forall|i: int|
        0 <= i < frontier.len() && frontier[i] != ROOT_ORDER ==> !is_parent(ops, #[trigger] frontier[i])
    &&& ops.len() > 0 ==> !frontier.contains(ROOT_ORDER)
    &&& forall|i: int, j: int| 0 <= i < j < frontier.len() ==> frontier[i] != frontier[j]
}

/// The highest sequence number below `u64::MAX` that the index holds for
/// `agent`, if any.
pub open spec fn spec_max_seq(index: Map<(Agent, SeqNo), Order>, agent: Agent) -> Option<SeqNo> {
    if exists|s: SeqNo| s < u64::MAX && #[trigger] index.contains_key((agent, s)) {
        Some(
            choose|m: SeqNo|
                m < u64::MAX && index.contains_key((agent, m)) && forall|s: SeqNo|
                    s < u64::MAX && #[trigger] index.contains_key((agent, s)) ==> s <= m,
        )
    } else {
        Option::None
    }
}

/// The table of highest sequence numbers holds, for each agent with a stored
/// version below `u64::MAX`, the highest such, and nothing for other agents.
pub open spec fn max_seqs_ok(m: Map<Agent, SeqNo>, index: Map<(Agent, SeqNo), Order>) -> bool {
    forall|a: Agent|
        #![trigger m.contains_key(a)]
        (m.contains_key(a) <==> exists|s: SeqNo| s < u64::MAX && #[trigger] index.contains_key((a, s)))
            && (m.contains_key(a) ==> {
            let x = m[a];
            &&& x < u64::MAX
            &&& index.contains_key((a, x))
            &&& forall|s: SeqNo| s < u64::MAX && #[trigger] index.contains_key((a, s)) ==> s <= x
        })
}

/// Indexing a new version and raising its agent's highest sequence number
/// when it is higher keeps the table right.
pub proof fn lemma_max_seqs_insert(
    m: Map<Agent, SeqNo>,
    index: Map<(Agent, SeqNo), Order>,
    a: Agent,
    sq: SeqNo,
    r: Order,
)
    requires
        max_seqs_ok(m, index),
    ensures
        max_seqs_ok(
            if sq < u64::MAX && (!m.contains_key(a) || m[a] < sq) {
                m.insert(a, sq)
            } else {
                m
            },
            index.insert((a, sq), r),
        ),
{
    let m2 = if sq < u64::MAX && (!m.contains_key(a) || m[a] < sq) {
        m.insert(a, sq)
    } else {
        m
    };
    let i2 = index.insert((a, sq), r);
    assert forall|b: Agent| #![trigger m2.contains_key(b)]
        (m2.contains_key(b) <==> exists|s: SeqNo| s < u64::MAX && #[trigger] i2.contains_key((b, s)))
            && (m2.contains_key(b) ==> {
            let x = m2[b];
            &&& x < u64::MAX
            &&& i2.contains_key((b, x))
            &&& forall|s: SeqNo| s < u64::MAX && #[trigger] i2.contains_key((b, s)) ==> s <= x
        }) by {
        assert(m.contains_key(b) <==> exists|s: SeqNo| s < u64::MAX && #[trigger] index.contains_key((b, s)));
        if b != a {
            assert forall|t: SeqNo| i2.contains_key((b, t)) == index.contains_key((b, t)) by {}
        } else {
            if sq < u64::MAX {
                assert(i2.contains_key((b, sq)));
            }
            if m.contains_key(b) {
                let x = m[b];
                assert(index.contains_key((b, x)));
                assert(i2.contains_key((b, x)));
            }
            if exists|s: SeqNo| s < u64::MAX && #[trigger] i2.contains_key((b, s)) {
                let s0 = choose|s: SeqNo| s < u64::MAX && #[trigger] i2.contains_key((b, s));
                if s0 != sq {
                    assert(index.contains_key((b, s0)));
                }
            }
        }
    }
}

/// The order of a remote version: the root for the root agent, else what the
/// index holds for the interned version.
pub open spec fn resolve(names: Seq<Seq<char>>, index: Map<(Agent, SeqNo), Order>, v: RemoteVersion) -> Order {
    if v.agent@ == root_agent_name() {
        ROOT_ORDER
    } else {
        index[(agent_id_of(names, v.agent@), v.seq)]
    }
}

/// Whether a remote version names the root or a stored operation.
pub open spec fn remote_present(names: Seq<Seq<char>>, index: Map<(Agent, SeqNo), Order>, v: RemoteVersion) -> bool {
    v.agent@ == root_agent_name() || (agent_known(names, v.agent@) && index.contains_key(
        (agent_id_of(names, v.agent@), v.seq),
    ))
}

/// The append-only operation graph: operations by order, the index from
/// versions to orders, and the frontier of the graph.
#[derive(Debug)]
pub struct OpDb {
    agent_map: AgentMap,
    ops: Vec<LocalOperation>,
    version_to_order: BTreeMap<(Agent, SeqNo), Order>,
    /// For each agent, the highest sequence number below `u64::MAX` stored.
    max_seqs: BTreeMap<Agent, SeqNo>,
    frontier: Vec<Order>,
}

impl Default for OpDb {
    fn default() -> (r: OpDb)
        ensures
            r.wf(),
            r.spec_ops() == Seq::<LocalOperation>::empty(),
            r.spec_frontier() == seq![ROOT_ORDER],
    {
        OpDb::new()
    }
}

impl OpDb {
    pub closed spec fn agents(&self) -> Seq<Seq<char>> {
        self.agent_map@
    }

    pub closed spec fn spec_ops(&self) -> Seq<LocalOperation> {
        self.ops@
    }

    pub closed spec fn index(&self) -> Map<(Agent, SeqNo), Order> {
        self.version_to_order@
    }

    pub closed spec fn spec_frontier(&self) -> Seq<Order> {
        self.frontier@
    }

    pub closed spec fn max_seqs_wf(&self) -> bool {
        max_seqs_ok(self.max_seqs@, self.version_to_order@)
    }

    pub open spec fn wf(&self) -> bool {
        &&& agent_names_wf(self.agents())
        &&& ops_wf(self.spec_ops(), self.agents().len())
        &&& index_wf(self.index(), self.spec_ops())
        &&& frontier_wf(self.spec_ops(), self.spec_frontier())
        &&& self.max_seqs_wf()
    }

    pub fn new() -> (r: OpDb)
        ensures
            r.wf(),
            r.agents() == Seq::<Seq<char>>::empty(),
            r.spec_ops() == Seq::<LocalOperation>::empty(),
            r.index() == Map::<(Agent, SeqNo), Order>::empty(),
            r.spec_frontier() == seq![ROOT_ORDER],
    {
        let r = OpDb {
            agent_map: AgentMap::new(),
            ops: Vec::new(),
            version_to_order: BTreeMap::new(),
            max_seqs: BTreeMap::new(),
            frontier: vec![ROOT_ORDER],
        };
        assert(r.spec_frontier() =~= seq![ROOT_ORDER]);
        r
    }

    /// The current frontier: the tips of the whole graph.
    pub fn frontier(&self) -> (r: &Vec<Order>)
        ensures
            r@ == self.spec_frontier(),
    {
        &self.frontier
    }

    /// The number of stored operations.
    pub fn len(&self) -> (r: usize)
        ensures
            r == self.spec_ops().len(),
    {
        self.ops.len()
    }

    /// The agent map of the store.
    pub fn agent_map(&self) -> (r: &AgentMap)
        ensures
            r@ == self.agents(),
    {
        &self.agent_map
    }

    /// The highest sequence number stored for `agent`, or `None` when the
    /// agent has stored no version (a version with sequence number `u64::MAX`
    /// is not counted).
    pub fn max_seq(&self, agent: Agent) -> (r: Option<SeqNo>)
        requires
            self.wf(),
        ensures
            r == spec_max_seq(self.index(), agent),
            r matches Some(m) ==> m < u64::MAX && self.index().contains_key((agent, m)) && forall|s: SeqNo|
                s < u64::MAX && #[trigger] self.index().contains_key((agent, s)) ==> s <= m,
    {
        match self.max_seqs.get(&agent) {
            Some(m) => {
                let m = *m;
                proof {
                    assert(self.max_seqs@.contains_key(agent));
                    let c = choose|c: SeqNo|
                        c < u64::MAX && self.index().contains_key((agent, c)) && forall|s: SeqNo|
                            s < u64::MAX && #[trigger] self.index().contains_key((agent, s)) ==> s <= c;
                    assert(c <= m && m <= c);
                }
                Some(m)
            },
            Option::None => {
                assert(!self.max_seqs@.contains_key(agent));
                Option::None
            },
        }
    }

    /// The stored operation at `order`; the root has none.
    pub fn operation_by_order(&self, order: Order) -> (r: &LocalOperation)
        requires
            order < self.spec_ops().len(),
        ensures
            *r == self.spec_ops()[order as int],
    {
        let n = self.ops.len();
        assert(order < n);
        &self.ops[order as usize]
    }

    /// The order of a local version: the root for the root agent, else what
    /// the index holds.
    pub fn version_to_order(&self, version: &LocalVersion) -> (r: Option<Order>)
        ensures
            r == (if version.agent == ROOT_AGENT {
                Some(ROOT_ORDER)
            } else if self.index().contains_key(version_key(*version)) {
                Some(self.index()[version_key(*version)])
            } else {
                Option::<Order>::None
            }),
    {
        if version.agent == ROOT_AGENT {
            Some(ROOT_ORDER)
        } else {
            match self.version_to_order.get(&(version.agent, version.seq)) {
                Some(o) => Some(*o),
                Option::None => Option::None,
            }
        }
    }

    /// The stored operation with a given version, if there is one.
    pub fn operation_by_version(&self, version: &LocalVersion) -> (r: Option<&LocalOperation>)
        requires
            self.wf(),
            version.agent != ROOT_AGENT,
        ensures
            match r {
                Some(op) => self.index().contains_key(version_key(*version)) && *op
                    == self.spec_ops()[self.index()[version_key(*version)] as int],
                Option::None => !self.index().contains_key(version_key(*version)),
            },
    {
        match self.version_to_order(version) {
            Some(order) => Some(self.operation_by_order(order)),
            Option::None => Option::None,
        }
    }

    /// The order of a remote version, interning its agent.
    pub fn remote_version_to_order_mut(&mut self, version: &RemoteVersion) -> (r: Option<Order>)
        requires
            old(self).wf(),
            agent_known(old(self).agents(), version.agent@) || old(self).agents().len() + 1
                < ROOT_AGENT,
        ensures
            final(self).wf(),
            final(self).agents() == names_after_intern(old(self).agents(), version.agent@),
            final(self).spec_ops() == old(self).spec_ops(),
            final(self).index() == old(self).index(),
            final(self).spec_frontier() == old(self).spec_frontier(),
            r == (if remote_present(old(self).agents(), old(self).index(), *version) {
                Some(resolve(old(self).agents(), old(self).index(), *version))
            } else {
                Option::<Order>::None
            }),
    {
        let local = version.to_local_mut(&mut self.agent_map);
        proof {
            lemma_intern_keeps_ids(old(self).agents(), version.agent@);
            assert forall|o: int| 0 <= o < self.spec_ops().len() implies #[trigger] op_wf(
                self.spec_ops(),
                self.agents().len(),
                o,
            ) by {
                assert(op_wf(self.spec_ops(), old(self).agents().len(), o));
            }
            if !agent_known(old(self).agents(), version.agent@) {
                let a = local.agent;
                assert(a == old(self).agents().len());
                assert forall|s: SeqNo| !self.index().contains_key((a, s)) by {
                    if self.index().contains_key((a, s)) {
                        let o = self.index()[(a, s)];
                        assert(op_wf(self.spec_ops(), old(self).agents().len(), o as int));
                    }
                }
            }
        }
        self.version_to_order(&local)
    }

    /// The order of a remote version whose agent is known.
    pub fn remote_version_to_order(&self, version: &RemoteVersion) -> (r: Option<Order>)
        requires
            self.wf(),
            agent_known(self.agents(), version.agent@),
        ensures
            r == (if remote_present(self.agents(), self.index(), *version) {
                Some(resolve(self.agents(), self.index(), *version))
            } else {
                Option::<Order>::None
            }),
    {
        let local = version.try_to_local(&self.agent_map).unwrap();
        self.version_to_order(&local)
    }

    /// The version of an order: the root version for the root order.
    pub fn order_to_version(&self, order: Order) -> (r: LocalVersion)
        requires
            order_valid(self.spec_ops(), order),
        ensures
            r == (if order == ROOT_ORDER {
                spec_root_version()
            } else {
                self.spec_ops()[order as int].version
            }),
    {
        if order == ROOT_ORDER {
            root_version()
        } else {
            self.operation_by_order(order).version
        }
    }

    /// The portable version of an order.
    pub fn order_to_remote_version(&self, order: Order) -> (r: RemoteVersion)
        requires
            self.wf(),
            order_valid(self.spec_ops(), order),
        ensures
            r.agent@ == agent_name_of(
                self.agents(),
                (if order == ROOT_ORDER {
                    spec_root_version()
                } else {
                    self.spec_ops()[order as int].version
                }).agent,
            ),
            r.seq == (if order == ROOT_ORDER {
                spec_root_version()
            } else {
                self.spec_ops()[order as int].version
            }).seq,
    {
        proof {
            if order != ROOT_ORDER {
                assert(op_wf(self.spec_ops(), self.agents().len(), order as int));
            }
        }
        self.order_to_version(order).to_remote(&self.agent_map)
    }

    /// The branch after applying `op`: the members that are parents of `op`
    /// leave, and `op`'s order joins at the end. `op` must not be in the
    /// branch yet, and each of its parents must be.
    pub fn advance_branch_by_op(&self, branch: &[Order], op: &LocalOperation) -> (r: Vec<Order>)
        requires
            self.wf(),
            branch_valid(self.spec_ops(), branch@, Option::None),
            !branch_contains(self.spec_ops(), op.order, branch@, Option::None),
            forall|i: int|
                0 <= i < op.parents@.len() ==> branch_contains(
                    self.spec_ops(),
                    #[trigger] op.parents@[i],
                    branch@,
                    Option::None,
                ),
        ensures
            r@ == retain_not_in(branch@, op.parents@).push(op.order),
    {
        let mut b: Vec<Order> = Vec::new();
        let mut i: usize = 0;
        while i < branch.len()
            invariant
                i <= branch@.len(),
                b@ == retain_not_in(branch@.subrange(0, i as int), op.parents@),
            decreases branch@.len() - i,
        {
            let o = branch[i];
            if !contains_order(op.parents.as_slice(), o) {
                b.push(o);
            }
            proof {
                let s1 = branch@.subrange(0, i + 1);
                assert(s1.drop_last() =~= branch@.subrange(0, i as int));
                assert(s1.last() == o);
            }
            i = i + 1;
        }
        assert(branch@.subrange(0, i as int) =~= branch@);
        b.push(op.order);
        b
    }

    /// Resolves each remote version of `vs` to its order.
    fn resolve_all(&self, vs: &Vec<RemoteVersion>) -> (r: Vec<Order>)
        requires
            self.wf(),
            forall|i: int| 0 <= i < vs@.len() ==> remote_present(self.agents(), self.index(), #[trigger] vs@[i]),
        ensures
            r@ == vs@.map_values(|v: RemoteVersion| resolve(self.agents(), self.index(), v)),
    {
        let mut r: Vec<Order> = Vec::new();
        let mut i: usize = 0;
        while i < vs.len()
            invariant
                self.wf(),
                i <= vs@.len(),
                forall|j: int| 0 <= j < vs@.len() ==> remote_present(self.agents(), self.index(), #[trigger] vs@[j]),
                r@.len() == i,
                forall|j: int| 0 <= j < i ==> #[trigger] r@[j] == resolve(self.agents(), self.index(), vs@[j]),
            decreases vs@.len() - i,
        {
            let o = self.remote_version_to_order(&vs[i]).unwrap();
            r.push(o);
            i = i + 1;
        }
        assert(r@ =~= vs@.map_values(|v: RemoteVersion| resolve(self.agents(), self.index(), v)));
        r
    }

    /// Adds an operation to the store and returns its order; an operation
    /// whose version is stored already gives its existing order.
    pub fn add_operation(&mut self, op: &RemoteOperation) -> (r: Order)
        requires
            old(self).wf(),
            op.parents@.len() > 0,
            op.version.agent@ != root_agent_name(),
            agent_known(old(self).agents(), op.version.agent@) || old(self).agents().len() + 1 < ROOT_AGENT,
            old(self).spec_ops().len() + 1 < ROOT_ORDER,
            op_present(old(self).agents(), old(self).index(), *op) || op_admissible(
                old(self).agents(),
                old(self).index(),
                old(self).spec_ops(),
                *op,
            ),
        ensures
            final(self).wf(),
            added(*old(self), *final(self), *op, r),
    {
        let local_version = op.version.to_local_mut(&mut self.agent_map);
        proof {
            lemma_intern_keeps_ids(old(self).agents(), op.version.agent@);
            lemma_agent_id_below(self.agents(), op.version.agent@);
            assert forall|o: int| 0 <= o < self.spec_ops().len() implies #[trigger] op_wf(
                self.spec_ops(),
                self.agents().len(),
                o,
            ) by {
                assert(op_wf(self.spec_ops(), old(self).agents().len(), o));
            }
        }
        proof {
            if !agent_known(old(self).agents(), op.version.agent@) {
                let key = (local_version.agent, local_version.seq);
                if self.index().contains_key(key) {
                    let o = self.index()[key];
                    assert(op_wf(self.spec_ops(), old(self).agents().len(), o as int));
                }
            }
        }
        match self.version_to_order.get(&(local_version.agent, local_version.seq)) {
            Some(order) => {
                return *order;
            },
            Option::None => {},
        }
        let ghost names = self.agents();
        let ghost old_names = old(self).agents();
        let ghost index = self.index();
        let ghost ops = self.spec_ops();
        proof {
            assert(!op_present(old_names, index, *op));
            assert forall|v: RemoteVersion| #[trigger]
                remote_present(old_names, index, v) implies remote_present(names, index, v) && resolve(
                names,
                index,
                v,
            ) == resolve(old_names, index, v) by {
                if v.agent@ != root_agent_name() {
                    assert(agent_id_of(names, v.agent@) == agent_id_of(old_names, v.agent@));
                }
            }
            assert forall|i: int| 0 <= i < op.parents@.len() implies remote_present(
                names,
                index,
                #[trigger] op.parents@[i],
            ) by {
                assert(remote_present(old_names, index, op.parents@[i]));
            }
        }
        let parent_orders = self.resolve_all(&op.parents);
        let new_order = self.ops.len() as Order;
        let mut doc_ops: Vec<LocalDocOp> = Vec::new();
        let mut k: usize = 0;
        while k < op.doc_ops.len()
            invariant
                self.wf(),
                names == self.agents(),
                index == self.index(),
                ops == self.spec_ops(),
                k <= op.doc_ops@.len(),
                doc_ops@.len() == k,
                forall|v: RemoteVersion| #[trigger]
                    remote_present(old_names, index, v) ==> remote_present(names, index, v) && resolve(
                        names,
                        index,
                        v,
                    ) == resolve(old_names, index, v),
                op_admissible(old_names, index, ops, *op),
                forall|j: int|
                    0 <= j < k ==> {
                        let d = #[trigger] doc_ops@[j];
                        &&& d.id@ == op.doc_ops@[j].id@
                        &&& d.patch@ == op.doc_ops@[j].patch@
                        &&& d.parents@ == op.doc_ops@[j].parents@.map_values(
                            |v: RemoteVersion| resolve(names, index, v),
                        )
                    },
            decreases op.doc_ops@.len() - k,
        {
            let rd = &op.doc_ops[k];
            proof {
                assert forall|j: int| 0 <= j < rd.parents@.len() implies remote_present(
                    names,
                    index,
                    #[trigger] rd.parents@[j],
                ) by {
                    assert(rd.parents@[j] == op.doc_ops@[k as int].parents@[j]);
                    assert(remote_present(old_names, index, op.doc_ops@[k as int].parents@[j]));
                }
            }
            let parents = self.resolve_all(&rd.parents);
            proof {
                assert(parents@ =~= rd.parents@.map_values(|v: RemoteVersion| resolve(names, index, v)));
            }
            doc_ops.push(LocalDocOp { id: rd.id.clone(), patch: rd.patch.duplicate(), parents });
            k = k + 1;
        }
        let succeeds = match op.succeeds {
            Some(seq) => {
                let o = self.version_to_order(&LocalVersion { agent: local_version.agent, seq }).unwrap();
                Some(o)
            },
            Option::None => Option::None,
        };
        let local_op = LocalOperation {
            order: new_order,
            version: local_version,
            parents: parent_orders,
            doc_ops,
            succeeds,
        };
        proof {
            assert(local_op.parents@ =~= op.parents@.map_values(|v: RemoteVersion| resolve(names, index, v)));
            assert forall|i: int| 0 <= i < local_op.parents@.len() implies #[trigger] local_op.parents@[i] < new_order
                || local_op.parents@[i] == ROOT_ORDER by {
                let v = op.parents@[i];
                assert(remote_present(old_names, index, v));
                if v.agent@ != root_agent_name() {
                    let key = (agent_id_of(names, v.agent@), v.seq);
                    assert(index.contains_key(key));
                }
            }
            assert forall|i: int| 0 <= i < local_op.parents@.len() implies branch_contains(
                ops,
                #[trigger] local_op.parents@[i],
                self.spec_frontier(),
                Option::None,
            ) by {
                let p = local_op.parents@[i];
                if p != ROOT_ORDER {
                    assert(branch_contains(ops, p, self.spec_frontier(), Option::None));
                }
            }
            assert forall|i: int| 0 <= i < self.spec_frontier().len() implies !reaches(
                ops,
                #[trigger] self.spec_frontier()[i],
                new_order,
                Option::None,
            ) by {
                let f = self.spec_frontier()[i];
                assert(member_valid(ops, Option::None, f));
                if f != ROOT_ORDER {
                    lemma_below_unreachable(ops, f, new_order, Option::None);
                }
            }
        }
        proof {
            assert(is_local_form(names, index, *op, new_order, local_op));
            assert forall|kk: int, j: int|
                0 <= kk < local_op.doc_ops@.len() && 0 <= j < local_op.doc_ops@[kk].parents@.len()
                    implies doc_parent_ok(
                    ops,
                    local_op.doc_ops@[kk].id@,
                    #[trigger] local_op.doc_ops@[kk].parents@[j],
                    ops.len() as int,
                ) by {
                let v = op.doc_ops@[kk].parents@[j];
                assert(local_op.doc_ops@[kk].parents@[j] == resolve(names, index, v));
                assert(remote_present(old_names, index, v));
            }
            match op.succeeds {
                Some(sq) => {
                    assert(index.contains_key((local_version.agent, sq)));
                },
                Option::None => {},
            }
        }
        let new_frontier = self.advance_branch_by_op(self.frontier.as_slice(), &local_op);
        self.frontier = new_frontier;
        let ghost lop = local_op;
        let ghost old_frontier = old(self).spec_frontier();
        self.ops.push(local_op);
        self.version_to_order.insert((local_version.agent, local_version.seq), new_order);
        proof {
            lemma_push_wf(ops, names.len(), index, old_frontier, lop);
            assert(self.spec_ops() == ops.push(lop));
        }
        let ghost m0 = self.max_seqs@;
        proof {
            assert(max_seqs_ok(m0, index));
            lemma_max_seqs_insert(m0, index, local_version.agent, local_version.seq, new_order);
        }
        if local_version.seq < u64::MAX {
            let raise = match self.max_seqs.get(&local_version.agent) {
                Some(m) => *m < local_version.seq,
                Option::None => true,
            };
            if raise {
                self.max_seqs.insert(local_version.agent, local_version.seq);
            }
        }
        new_order
    }

    /// Whether a remote version names the root or a stored operation.
    pub fn is_present(&self, v: &RemoteVersion) -> (r: bool)
        requires
            self.wf(),
        ensures
            r == remote_present(self.agents(), self.index(), *v),
    {
        match self.agent_map.try_to_local(&v.agent) {
            Some(a) => {
                if a == ROOT_AGENT {
                    proof {
                        lemma_agent_round_trip(self.agents(), v.agent@, a);
                        lemma_agent_id_below(self.agents(), v.agent@);
                    }
                    true
                } else {
                    self.version_to_order.contains_key(&(a, v.seq))
                }
            },
            Option::None => false,
        }
    }

    /// Whether the version of `op` is stored already.
    pub fn contains_operation(&self, op: &RemoteOperation) -> (r: bool)
        requires
            self.wf(),
        ensures
            r == op_present(self.agents(), self.index(), *op),
    {
        match self.agent_map.try_to_local(&op.version.agent) {
            Some(a) => self.version_to_order.contains_key(&(a, op.version.seq)),
            Option::None => false,
        }
    }

    /// Whether `p` may be a document parent, for `id`, of the next operation.
    fn doc_parent_allowed(&self, id: &DocId, p: Order) -> (r: bool)
        requires
            self.wf(),
        ensures
            r == doc_parent_ok(self.spec_ops(), id@, p, self.spec_ops().len() as int),
    {
        if p == ROOT_ORDER {
            return true;
        }
        if p >= self.ops.len() as u64 {
            return false;
        }
        let parent = self.operation_by_order(p);
        match doc_op_entry(parent.doc_ops.as_slice(), id) {
            Some(_) => true,
            Option::None => false,
        }
    }

    /// Whether an operation not yet stored may be admitted: see
    /// `op_admissible`.
    pub fn admits(&self, op: &RemoteOperation) -> (r: bool)
        requires
            self.wf(),
        ensures
            r == op_admissible(self.agents(), self.index(), self.spec_ops(), *op),
    {
        let mut i: usize = 0;
        while i < op.parents.len()
            invariant
                self.wf(),
                i <= op.parents@.len(),
                forall|j: int| 0 <= j < i ==> remote_present(self.agents(), self.index(), #[trigger] op.parents@[j]),
            decreases op.parents@.len() - i,
        {
            if !self.is_present(&op.parents[i]) {
                return false;
            }
            i = i + 1;
        }
        let mut k: usize = 0;
        while k < op.doc_ops.len()
            invariant
                self.wf(),
                k <= op.doc_ops@.len(),
                forall|kk: int, j: int|
                    0 <= kk < k && 0 <= j < op.doc_ops@[kk].parents@.len() ==> {
                        let v = #[trigger] op.doc_ops@[kk].parents@[j];
                        &&& remote_present(self.agents(), self.index(), v)
                        &&& doc_parent_ok(
                            self.spec_ops(),
                            op.doc_ops@[kk].id@,
                            resolve(self.agents(), self.index(), v),
                            self.spec_ops().len() as int,
                        )
                    },
            decreases op.doc_ops@.len() - k,
        {
            let d = &op.doc_ops[k];
            let mut j: usize = 0;
            while j < d.parents.len()
                invariant
                    self.wf(),
                    k < op.doc_ops@.len(),
                    *d == op.doc_ops@[k as int],
                    j <= d.parents@.len(),
                    forall|jj: int|
                        0 <= jj < j ==> {
                            let v = #[trigger] d.parents@[jj];
                            &&& remote_present(self.agents(), self.index(), v)
                            &&& doc_parent_ok(
                                self.spec_ops(),
                                d.id@,
                                resolve(self.agents(), self.index(), v),
                                self.spec_ops().len() as int,
                            )
                        },
                decreases d.parents@.len() - j,
            {
                let v = &d.parents[j];
                if !self.is_present(v) {
                    return false;
                }
                let p = self.remote_version_to_order(v).unwrap();
                if !self.doc_parent_allowed(&d.id, p) {
                    return false;
                }
                j = j + 1;
            }
            k = k + 1;
        }
        match op.succeeds {
            Some(sq) => {
                match self.agent_map.try_to_local(&op.version.agent) {
                    Some(a) => self.version_to_order.contains_key(&(a, sq)),
                    Option::None => false,
                }
            },
            Option::None => true,
        }
    }

    /// Whether `target` is the root or an ancestor of (or equal to) a member
    /// of `branch`, following parents and predecessors. False for an empty
    /// branch, whatever the target.
    pub fn branch_contains_version(&self, target: Order, branch: &[Order]) -> (r: bool)
        requires
            self.wf(),
            branch_valid(self.spec_ops(), branch@, Option::None),
        ensures
            r == branch_contains(self.spec_ops(), target, branch@, Option::None),
            branch@.len() == 0 ==> !r,
            branch@.len() > 0 && target == ROOT_ORDER ==> r,
    {
        self.raw_branch_contains_version(target, branch, Option::None)
    }

    /// As `branch_contains_version`, following only the parents that doc ops
    /// for `at_id` give. Every member of the branch must edit `at_id`, or be
    /// the root: a document's entries may hold the root's implicit value (an
    /// edit that supersedes nothing keeps it), and forward and backward
    /// application query over exactly those entries.
    pub fn branch_contains_doc_version(&self, target: Order, branch: &[Order], at_id: &DocId) -> (r: bool)
        requires
            self.wf(),
            branch_valid(self.spec_ops(), branch@, Some(at_id@)),
        ensures
            r == branch_contains(self.spec_ops(), target, branch@, Some(at_id@)),
    {
        self.raw_branch_contains_version(target, branch, Some(at_id))
    }

    /// The ancestry query, by a reverse depth-first walk from the branch that
    /// stops at orders not above the target: orders are a topological order,
    /// so nothing below the target descends from it.
    pub fn raw_branch_contains_version(&self, target: Order, branch: &[Order], at_id: Option<&DocId>) -> (r: bool)
        requires
            self.wf(),
            branch_valid(self.spec_ops(), branch@, at_view(at_id)),
        ensures
            r == branch_contains(self.spec_ops(), target, branch@, at_view(at_id)),
    {
        let ghost ops = self.spec_ops();
        let ghost at = at_view(at_id);
        let ghost n = self.agents().len();
        if branch.len() == 0 {
            return false;
        }
        if target == ROOT_ORDER || contains_order(branch, target) {
            proof {
                if target != ROOT_ORDER {
                    let i = choose|i: int| 0 <= i < branch@.len() && branch@[i] == target;
                    assert(reaches(ops, branch@[i], target, at));
                }
            }
            return true;
        }
        let mut visited: BTreeSet<Order> = BTreeSet::new();
        let mut found = false;
        // Descending, so that the smallest orders are popped first.
        let mut queue: Vec<Order> = sorted_descending(branch);
        let ghost mut popped: Set<u64> = Set::empty();
        proof {
            assert forall|i: int| 0 <= i < queue@.len() implies member_valid(ops, at, #[trigger] queue@[i])
                && (queue@[i] == ROOT_ORDER || branch_reaches(ops, branch@, queue@[i], at)) by {
                assert(queue@.contains(queue@[i]));
                let j = choose|j: int| 0 <= j < branch@.len() && branch@[j] == queue@[i];
                assert(member_valid(ops, at, branch@[j]));
                assert(reaches(ops, branch@[j], branch@[j], at));
            }
            assert forall|i: int| 0 <= i < branch@.len() implies queue@.contains(#[trigger] branch@[i]) by {
                assert(branch@.contains(branch@[i]));
            }
        }
        while !found && queue.len() > 0
            invariant
                self.wf(),
                ops == self.spec_ops(),
                at == at_view(at_id),
                n == self.agents().len(),
                target != ROOT_ORDER,
                visited@.finite(),
                visited@.len() <= ops.len(),
                forall|v: u64| #[trigger]
                    visited@.contains(v) ==> popped.contains(v) && target < v < ops.len(),
                forall|i: int|
                    0 <= i < branch@.len() ==> queue@.contains(#[trigger] branch@[i]) || popped.contains(
                        branch@[i],
                    ),
                forall|i: int|
                    0 <= i < queue@.len() ==> member_valid(ops, at, #[trigger] queue@[i]) && (queue@[i]
                        == ROOT_ORDER || branch_reaches(ops, branch@, queue@[i], at)),
                forall|v: u64| #[trigger]
                    popped.contains(v) && target < v && v != ROOT_ORDER ==> visited@.contains(v),
                forall|v: u64| #[trigger]
                    popped.contains(v) ==> v == ROOT_ORDER || branch_reaches(ops, branch@, v, at),
                forall|v: u64, k: int|
                    visited@.contains(v) && 0 <= k < next_orders(ops, v as int, at).len()
                        ==> queue@.contains(#[trigger] next_orders(ops, v as int, at)[k])
                        || popped.contains(next_orders(ops, v as int, at)[k]),
                found <==> popped.contains(target),
            decreases ops.len() - visited@.len(), queue@.len(),
        {
            let ghost q0 = queue@;
            let ghost popped0 = popped;
            let order = queue.pop().unwrap();
            proof {
                popped = popped.insert(order);
                assert(q0.last() == order);
                assert(queue@ == q0.drop_last());
                assert forall|c: u64| q0.contains(c) implies queue@.contains(c) || popped.contains(c) by {
                    lemma_pop_contains(q0, c);
                }
                assert(member_valid(ops, at, q0[q0.len() - 1]));
            }
            if order <= target || order == ROOT_ORDER {
                if order == target {
                    found = true;
                }
            } else if !visited.contains(&order) {
                visited.insert(order);
                proof {
                    lemma_bounded_set_len(visited@, ops.len() as u64);
                    lemma_steps_ok(ops, n, at, branch@, order);
                }
                let op = self.operation_by_order(order);
                let ghost q1 = queue@;
                match at_id {
                    Option::None => {
                        push_all(&mut queue, &op.parents);
                        if let Some(s) = op.succeeds {
                            queue.push(s);
                        }
                        assert(queue@ =~= q1 + next_orders(ops, order as int, at));
                    },
                    Some(id) => {
                        proof {
                            lemma_doc_op_pos(op.doc_ops@, id@, 0);
                        }
                        let d = doc_op_entry(op.doc_ops.as_slice(), id).unwrap();
                        push_all(&mut queue, &d.parents);
                        assert(queue@ =~= q1 + next_orders(ops, order as int, at));
                    },
                }
                proof {
                    let nx = next_orders(ops, order as int, at);
                    assert forall|c: u64| q1.contains(c) implies queue@.contains(c) by {
                        let j = choose|j: int| 0 <= j < q1.len() && q1[j] == c;
                        assert(queue@[j] == c);
                    }
                    assert forall|k: int| 0 <= k < nx.len() implies queue@.contains(#[trigger] nx[k]) by {
                        assert(queue@[q1.len() + k] == nx[k]);
                    }
                }
            }
        }
        proof {
            if !found {
                assert forall|i: int| 0 <= i < branch@.len() implies !reaches(
                    ops,
                    #[trigger] branch@[i],
                    target,
                    at,
                ) by {
                    lemma_closed_unreachable(ops, popped, target, at, branch@[i]);
                }
            }
        }
        found
    }
}

/// Whether the version of `op` is already stored.
pub open spec fn op_present(names: Seq<Seq<char>>, index: Map<(Agent, SeqNo), Order>, op: RemoteOperation) -> bool {
    agent_known(names, op.version.agent@) && index.contains_key(
        (agent_id_of(names, op.version.agent@), op.version.seq),
    )
}

/// Whether an operation not yet stored can be admitted: every parent, every
/// doc-op parent and the predecessor are stored (or the root), and each doc-op
/// parent is the root or an operation that edits the same document.
pub open spec fn op_admissible(
    names: Seq<Seq<char>>,
    index: Map<(Agent, SeqNo), Order>,
    ops: Seq<LocalOperation>,
    op: RemoteOperation,
) -> bool {
    &&& forall|i: int| 0 <= i < op.parents@.len() ==> remote_present(names, index, #[trigger] op.parents@[i])
    &&& forall|k: int, j: int|
        0 <= k < op.doc_ops@.len() && 0 <= j < op.doc_ops@[k].parents@.len() ==> {
            let v = #[trigger] op.doc_ops@[k].parents@[j];
            &&& remote_present(names, index, v)
            &&& doc_parent_ok(ops, op.doc_ops@[k].id@, resolve(names, index, v), ops.len() as int)
        }
    &&& (op.succeeds matches Some(s) ==> agent_known(names, op.version.agent@) && index.contains_key(
        (agent_id_of(names, op.version.agent@), s),
    ))
}

/// Whether `lop`, stored at `order`, is the local form of `op`: versions
/// resolved through `names` and `index`.
pub open spec fn is_local_form(
    names: Seq<Seq<char>>,
    index: Map<(Agent, SeqNo), Order>,
    op: RemoteOperation,
    order: Order,
    lop: LocalOperation,
) -> bool {
    &&& lop.order == order
    &&& lop.version == (LocalVersion { agent: agent_id_of(names, op.version.agent@), seq: op.version.seq })
    &&& lop.parents@ == op.parents@.map_values(|v: RemoteVersion| resolve(names, index, v))
    &&& lop.succeeds == match op.succeeds {
        Some(s) => Some(index[(agent_id_of(names, op.version.agent@), s)]),
        Option::None => Option::<Order>::None,
    }
    &&& lop.doc_ops@.len() == op.doc_ops@.len()
    &&& forall|k: int|
        0 <= k < op.doc_ops@.len() ==> {
            let d = #[trigger] lop.doc_ops@[k];
            &&& d.id@ == op.doc_ops@[k].id@
            &&& d.patch@ == op.doc_ops@[k].patch@
            &&& d.parents@ == op.doc_ops@[k].parents@.map_values(
                |v: RemoteVersion| resolve(names, index, v),
            )
        }
}

/// What `add_operation(op)` does to the store `a`, giving `b` and `r`: a
/// stored version gives its order and changes nothing; a new one is appended
/// at the next order, indexed, and advances the frontier.
pub open spec fn added(a: OpDb, b: OpDb, op: RemoteOperation, r: Order) -> bool {
    &&& b.agents() == names_after_intern(a.agents(), op.version.agent@)
    &&& op_present(b.agents(), b.index(), op)
    &&& r == b.index()[(agent_id_of(b.agents(), op.version.agent@), op.version.seq)]
    &&& if op_present(a.agents(), a.index(), op) {
        &&& b.spec_ops() == a.spec_ops()
        &&& b.index() == a.index()
        &&& b.spec_frontier() == a.spec_frontier()
    } else {
        let lop = b.spec_ops()[r as int];
        &&& r == a.spec_ops().len()
        &&& b.spec_ops() == a.spec_ops().push(lop)
        &&& is_local_form(b.agents(), a.index(), op, r, lop)
        &&& b.index() == a.index().insert(version_key(lop.version), r)
        &&& b.spec_frontier() == retain_not_in(a.spec_frontier(), lop.parents@).push(r)
    }
}

/// Adding an operation twice gives the same order both times, and the second
/// call leaves the store as the first left it, one operation longer than
/// before.
pub proof fn lemma_add_operation_twice(a: OpDb, b: OpDb, c: OpDb, op: RemoteOperation, r1: Order, r2: Order)
    requires
        added(a, b, op, r1),
        added(b, c, op, r2),
        !op_present(a.agents(), a.index(), op),
    ensures
        r1 == r2,
        c.spec_ops() == b.spec_ops(),
        c.index() == b.index(),
        c.spec_frontier() == b.spec_frontier(),
        c.spec_ops().len() == a.spec_ops().len() + 1,
{
}

/// Every parent of a stored operation, and every parent of its doc ops, is a
/// smaller order or the root.
pub proof fn lemma_parents_precede(db: &OpDb, o: int)
    requires
        db.wf(),
        0 <= o < db.spec_ops().len(),
    ensures
        forall|i: int|
            0 <= i < db.spec_ops()[o].parents@.len() ==> #[trigger] db.spec_ops()[o].parents@[i] < o
                || db.spec_ops()[o].parents@[i] == ROOT_ORDER,
        forall|k: int, j: int|
            0 <= k < db.spec_ops()[o].doc_ops@.len() && 0 <= j < db.spec_ops()[o].doc_ops@[k].parents@.len()
                ==> #[trigger] db.spec_ops()[o].doc_ops@[k].parents@[j] < o
                || db.spec_ops()[o].doc_ops@[k].parents@[j] == ROOT_ORDER,
{
    assert(op_wf(db.spec_ops(), db.agents().len(), o));
    assert forall|k: int, j: int|
        0 <= k < db.spec_ops()[o].doc_ops@.len() && 0 <= j < db.spec_ops()[o].doc_ops@[k].parents@.len()
            implies #[trigger] db.spec_ops()[o].doc_ops@[k].parents@[j] < o
            || db.spec_ops()[o].doc_ops@[k].parents@[j] == ROOT_ORDER by {
        let op = db.spec_ops()[o];
        assert(doc_parent_ok(db.spec_ops(), op.doc_ops@[k].id@, op.doc_ops@[k].parents@[j], o));
    }
}

/// Every indexed version belongs to the operation it maps to, and that
/// operation is not the root.
pub proof fn lemma_version_lookup(db: &OpDb, agent: Agent, seq: SeqNo)
    requires
        db.wf(),
        db.index().contains_key((agent, seq)),
    ensures
        agent != ROOT_AGENT,
        db.index()[(agent, seq)] < db.spec_ops().len(),
        db.spec_ops()[db.index()[(agent, seq)] as int].version == (LocalVersion { agent, seq }),
{
    let o = db.index()[(agent, seq)];
    assert(op_wf(db.spec_ops(), db.agents().len(), o as int));
}

/// The frontier contains the root and every stored operation.
pub proof fn lemma_frontier_contains_all(db: &OpDb, o: Order)
    requires
        db.wf(),
        order_valid(db.spec_ops(), o),
    ensures
        branch_contains(db.spec_ops(), o, db.spec_frontier(), Option::None),
{
}

/// Once anything is stored, the frontier holds exactly the stored
/// operations that no operation names as a parent, each once.
pub proof fn lemma_frontier_is_unparented(db: &OpDb, o: Order)
    requires
        db.wf(),
        db.spec_ops().len() > 0,
    ensures
        db.spec_frontier().contains(o) <==> (o < db.spec_ops().len() && !is_parent(db.spec_ops(), o)),
        forall|i: int, j: int|
            0 <= i < j < db.spec_frontier().len() ==> db.spec_frontier()[i] != db.spec_frontier()[j],
{
    let f = db.spec_frontier();
    if f.contains(o) {
        let i = choose|i: int| 0 <= i < f.len() && f[i] == o;
        assert(member_valid(db.spec_ops(), Option::None, f[i]));
        assert(o != ROOT_ORDER);
    }
}

/// An agent id that the store has never assigned has no highest sequence
/// number, whatever other agents have stored.
pub proof fn lemma_max_seq_unknown_agent(db: &OpDb, agent: Agent)
    requires
        db.wf(),
        !agent_id_valid(db.agents(), agent),
    ensures
        spec_max_seq(db.index(), agent) == Option::<SeqNo>::None,
{
    assert forall|s: SeqNo| !db.index().contains_key((agent, s)) by {
        if db.index().contains_key((agent, s)) {
            let o = db.index()[(agent, s)];
            assert(op_wf(db.spec_ops(), db.agents().len(), o as int));
        }
    }
}

/// The portable form of a valid order names the root or a stored operation,
/// and resolves back to the order.
pub proof fn lemma_remote_form_resolves(db: &OpDb, o: Order, v: RemoteVersion)
    requires
        db.wf(),
        order_valid(db.spec_ops(), o),
        v.agent@ == agent_name_of(
            db.agents(),
            (if o == ROOT_ORDER {
                spec_root_version()
            } else {
                db.spec_ops()[o as int].version
            }).agent,
        ),
        v.seq == (if o == ROOT_ORDER {
            spec_root_version()
        } else {
            db.spec_ops()[o as int].version
        }).seq,
    ensures
        remote_present(db.agents(), db.index(), v),
        resolve(db.agents(), db.index(), v) == o,
{
    if o != ROOT_ORDER {
        let ver = db.spec_ops()[o as int].version;
        assert(op_wf(db.spec_ops(), db.agents().len(), o as int));
        lemma_agent_round_trip(db.agents(), v.agent@, ver.agent);
        assert(db.agents()[ver.agent as int] != root_agent_name());
        assert(db.index().contains_key(version_key(ver)));
    }
}

/// The document of a query, as a view: `None` for global ancestry.
pub open spec fn at_view(at_id: Option<&DocId>) -> Option<Seq<char>> {
    match at_id {
        Some(id) => Some(id@),
        Option::None => Option::None,
    }
}

/// Whether `x` is one of `s`.
pub fn contains_order(s: &[Order], x: Order) -> (r: bool)
    ensures
        r == s@.contains(x),
{
    let mut i: usize = 0;
    while i < s.len()
        invariant
            i <= s@.len(),
            forall|j: int| 0 <= j < i ==> s@[j] != x,
        decreases s@.len() - i,
    {
        if s[i] == x {
            return true;
        }
        i = i + 1;
    }
    false
}

/// The elements of `v`, sorted in descending order.
fn sorted_descending(v: &[Order]) -> (r: Vec<Order>)
    ensures
        r@.len() == v@.len(),
        forall|x: Order| r@.contains(x) <==> v@.contains(x),
        forall|i: int, j: int| 0 <= i < j < r@.len() ==> r@[i] >= r@[j],
{
    let mut r: Vec<Order> = Vec::new();
    let mut i: usize = 0;
    while i < v.len()
        invariant
            i <= v@.len(),
            r@.len() == i,
            forall|x: Order| r@.contains(x) <==> v@.subrange(0, i as int).contains(x),
            forall|a: int, b: int| 0 <= a < b < r@.len() ==> r@[a] >= r@[b],
        decreases v@.len() - i,
    {
        let e = v[i];
        let mut p: usize = 0;
        while p < r.len() && r[p] >= e
            invariant
                p <= r@.len(),
                forall|a: int| 0 <= a < p ==> r@[a] >= e,
            decreases r@.len() - p,
        {
            p = p + 1;
        }
        let ghost r0 = r@;
        assert(forall|x: Order| r0.contains(x) <==> v@.subrange(0, i as int).contains(x));
        r.insert(p, e);
        proof {
            let s0 = v@.subrange(0, i as int);
            let s1 = v@.subrange(0, i + 1);
            assert(s1 =~= s0.push(e));
            assert(r@ =~= r0.insert(p as int, e));
            assert forall|x: Order| r@.contains(x) <==> s1.contains(x) by {
                if r@.contains(x) {
                    let k = choose|k: int| 0 <= k < r@.len() && r@[k] == x;
                    if k < p {
                        assert(r0[k] == x);
                        assert(r0.contains(x));
                    } else if k > p {
                        assert(r0[k - 1] == x);
                        assert(r0.contains(x));
                    }
                    if x != e {
                        let q = choose|q: int| 0 <= q < s0.len() && s0[q] == x;
                        assert(s1[q] == x);
                    } else {
                        assert(s1[i as int] == x);
                    }
                }
                if s1.contains(x) {
                    let q = choose|q: int| 0 <= q < s1.len() && s1[q] == x;
                    if q < i {
                        assert(s0[q] == x);
                        assert(s0.contains(x));
                        assert(r0.contains(x));
                        let k = choose|k: int| 0 <= k < r0.len() && r0[k] == x;
                        if k < p {
                            assert(r@[k] == x);
                        } else {
                            assert(r@[k + 1] == x);
                        }
                    } else {
                        assert(r@[p as int] == x);
                    }
                }
            }
            assert forall|a: int, b: int| 0 <= a < b < r@.len() implies r@[a] >= r@[b] by {
                if p < r0.len() {
                    assert(r0[p as int] < e);
                }
                if b < p {
                    assert(r@[a] == r0[a] && r@[b] == r0[b]);
                } else if b == p {
                    assert(r@[a] == r0[a]);
                } else if a < p {
                    assert(r@[a] == r0[a] && r@[b] == r0[b - 1]);
                } else if a == p {
                    assert(r@[b] == r0[b - 1]);
                    assert(r0[p as int] >= r0[b - 1] || b - 1 == p);
                } else {
                    assert(r@[a] == r0[a - 1] && r@[b] == r0[b - 1]);
                }
            }
        }
        i = i + 1;
    }
    assert(v@.subrange(0, i as int) =~= v@);
    r
}

/// Appends every element of `src` to `dst`.
fn push_all(dst: &mut Vec<Order>, src: &Vec<Order>)
    ensures
        final(dst)@ == old(dst)@ + src@,
{
    let mut i: usize = 0;
    while i < src.len()
        invariant
            i <= src@.len(),
            dst@ == old(dst)@ + src@.subrange(0, i as int),
        decreases src@.len() - i,
    {
        dst.push(src[i]);
        i = i + 1;
        assert(dst@ =~= old(dst)@ + src@.subrange(0, i as int));
    }
    assert(src@.subrange(0, i as int) =~= src@);
}

/// Every step from a valid member that the branch reaches is valid, and is
/// the root or reached by the branch too.
proof fn lemma_steps_ok(
    ops: Seq<LocalOperation>,
    n: nat,
    at: Option<Seq<char>>,
    branch: Seq<u64>,
    o: u64,
)
    requires
        ops_wf(ops, n),
        o < ops.len(),
        member_valid(ops, at, o),
        branch_reaches(ops, branch, o, at),
    ensures
        forall|k: int|
            0 <= k < next_orders(ops, o as int, at).len() ==> member_valid(
                ops,
                at,
                #[trigger] next_orders(ops, o as int, at)[k],
            ) && (next_orders(ops, o as int, at)[k] == ROOT_ORDER || branch_reaches(
                ops,
                branch,
                next_orders(ops, o as int, at)[k],
                at,
            )),
{
    assert(op_wf(ops, n, o as int));
    let op = ops[o as int];
    let b = choose|b: int| 0 <= b < branch.len() && reaches(ops, #[trigger] branch[b], o, at);
    assert forall|k: int| 0 <= k < next_orders(ops, o as int, at).len() implies member_valid(
        ops,
        at,
        #[trigger] next_orders(ops, o as int, at)[k],
    ) && (next_orders(ops, o as int, at)[k] == ROOT_ORDER || branch_reaches(
        ops,
        branch,
        next_orders(ops, o as int, at)[k],
        at,
    )) by {
        let c = next_orders(ops, o as int, at)[k];
        match at {
            Option::None => {
                if k < op.parents@.len() {
                    assert(c == op.parents@[k]);
                    assert(order_below(op.parents@[k], o as int));
                }
            },
            Some(id) => {
                lemma_doc_op_pos(op.doc_ops@, id, 0);
                let f = first_doc_op(op.doc_ops@, id);
                assert(c == op.doc_ops@[f].parents@[k]);
                assert(doc_parent_ok(ops, op.doc_ops@[f].id@, op.doc_ops@[f].parents@[k], o as int));
            },
        }
        if c != ROOT_ORDER {
            lemma_reaches_step(ops, branch[b], o, k, at);
        }
    }
}

/// Appending a well-formed operation whose parents the frontier contains
/// keeps the operations, the index and the advanced frontier well formed.
proof fn lemma_push_wf(
    ops: Seq<LocalOperation>,
    n: nat,
    index: Map<(Agent, SeqNo), Order>,
    frontier: Seq<Order>,
    lop: LocalOperation,
)
    requires
        ops_wf(ops, n),
        ops.len() + 1 < ROOT_ORDER,
        index_wf(index, ops),
        frontier_wf(ops, frontier),
        lop.order == ops.len(),
        lop.version.agent < n,
        !index.contains_key(version_key(lop.version)),
        lop.parents@.len() > 0,
        forall|i: int| 0 <= i < lop.parents@.len() ==> order_below(#[trigger] lop.parents@[i], ops.len() as int),
        forall|i: int|
            0 <= i < lop.parents@.len() ==> branch_contains(ops, #[trigger] lop.parents@[i], frontier, Option::None),
        lop.succeeds matches Some(s) ==> s < ops.len(),
        forall|k: int, j: int|
            0 <= k < lop.doc_ops@.len() && 0 <= j < lop.doc_ops@[k].parents@.len() ==> doc_parent_ok(
                ops,
                lop.doc_ops@[k].id@,
                #[trigger] lop.doc_ops@[k].parents@[j],
                ops.len() as int,
            ),
    ensures
        ops_wf(ops.push(lop), n),
        index_wf(index.insert(version_key(lop.version), lop.order), ops.push(lop)),
        frontier_wf(ops.push(lop), retain_not_in(frontier, lop.parents@).push(lop.order)),
{
    let ops2 = ops.push(lop);
    let r = lop.order;
    let index2 = index.insert(version_key(lop.version), r);
    let f2 = retain_not_in(frontier, lop.parents@).push(r);
    lemma_retain_not_in(frontier, lop.parents@);
    assert forall|x: int| 0 <= x < ops.len() implies ops2[x] == ops[x] by {}
    assert forall|o: int| 0 <= o < ops2.len() implies #[trigger] op_wf(ops2, n, o) by {
        if o < ops.len() {
            assert(op_wf(ops, n, o));
            let op = ops[o];
            assert forall|k: int, j: int|
                0 <= k < op.doc_ops@.len() && 0 <= j < op.doc_ops@[k].parents@.len() implies doc_parent_ok(
                ops2,
                op.doc_ops@[k].id@,
                #[trigger] op.doc_ops@[k].parents@[j],
                o,
            ) by {
                assert(doc_parent_ok(ops, op.doc_ops@[k].id@, op.doc_ops@[k].parents@[j], o));
            }
        } else {
            assert(ops2[o] == lop);
            assert forall|k: int, j: int|
                0 <= k < lop.doc_ops@.len() && 0 <= j < lop.doc_ops@[k].parents@.len() implies doc_parent_ok(
                ops2,
                lop.doc_ops@[k].id@,
                #[trigger] lop.doc_ops@[k].parents@[j],
                o,
            ) by {
                assert(doc_parent_ok(ops, lop.doc_ops@[k].id@, lop.doc_ops@[k].parents@[j], ops.len() as int));
            }
        }
    }
    assert forall|k: (Agent, SeqNo)| #[trigger] index2.contains_key(k) implies index2[k] < ops2.len()
        && version_key(ops2[index2[k] as int].version) == k by {
        if k != version_key(lop.version) {
            assert(index.contains_key(k));
        }
    }
    assert forall|o: int| 0 <= o < ops2.len() implies index2.contains_key(version_key(#[trigger] ops2[o].version))
        && index2[version_key(ops2[o].version)] == o by {
        if o < ops.len() {
            assert(index.contains_key(version_key(ops[o].version)));
        }
    }
    // The frontier.
    assert(f2[f2.len() - 1] == r);
    assert(f2.contains(r));
    assert forall|i: int| 0 <= i < f2.len() implies member_valid(ops2, Option::None, #[trigger] f2[i]) by {
        if i < f2.len() - 1 {
            let x = f2[i];
            assert(retain_not_in(frontier, lop.parents@)[i] == x);
            assert(retain_not_in(frontier, lop.parents@).contains(x));
            let j = choose|j: int| 0 <= j < frontier.len() && frontier[j] == x;
            assert(member_valid(ops, Option::None, frontier[j]));
        }
    }
    assert forall|o: u64| o < ops2.len() implies #[trigger] branch_contains(ops2, o, f2, Option::None) by {
        if o == r {
            assert(f2[f2.len() - 1] == r);
            assert(reaches(ops2, f2[f2.len() - 1], o, Option::None));
        } else {
            assert(branch_contains(ops, o, frontier, Option::None));
            let j = choose|j: int| 0 <= j < frontier.len() && reaches(ops, #[trigger] frontier[j], o, Option::None);
            let b = frontier[j];
            assert(member_valid(ops, Option::None, frontier[j]));
            if b == ROOT_ORDER {
                assert(false);
            }
            lemma_reaches_push(ops, lop, b, o, Option::None);
            if lop.parents@.contains(b) {
                let i = choose|i: int| 0 <= i < lop.parents@.len() && lop.parents@[i] == b;
                assert(next_orders(ops2, r as int, Option::None)[i] == b);
                assert(reaches(ops2, b, b, Option::None));
                assert(reaches(ops2, r, b, Option::None));
                lemma_reaches_trans(ops2, r, b, o, Option::None);
                assert(reaches(ops2, f2[f2.len() - 1], o, Option::None));
            } else {
                assert(retain_not_in(frontier, lop.parents@).contains(b));
                let i = choose|i: int|
                    0 <= i < retain_not_in(frontier, lop.parents@).len() && retain_not_in(
                        frontier,
                        lop.parents@,
                    )[i] == b;
                assert(f2[i] == b);
                assert(reaches(ops2, f2[i], o, Option::None));
            }
        }
    }
    let rt = retain_not_in(frontier, lop.parents@);
    lemma_retain_no_dup(frontier, lop.parents@);
    assert forall|i: int| 0 <= i < f2.len() && f2[i] != ROOT_ORDER implies !is_parent(ops2, #[trigger] f2[i]) by {
        let x = f2[i];
        if is_parent(ops2, x) {
            let y = choose|y: int| 0 <= y < ops2.len() && (#[trigger] ops2[y].parents@).contains(x);
            let q = choose|q: int| 0 <= q < ops2[y].parents@.len() && ops2[y].parents@[q] == x;
            if i == f2.len() - 1 {
                assert(x == r);
                if y < ops.len() {
                    assert(op_wf(ops, n, y));
                    assert(ops2[y] == ops[y]);
                    assert(order_below(ops[y].parents@[q], y));
                } else {
                    assert(ops2[y] == lop);
                    assert(order_below(lop.parents@[q], ops.len() as int));
                }
            } else {
                assert(rt[i] == x);
                assert(rt.contains(x));
                let j = choose|j: int| 0 <= j < frontier.len() && frontier[j] == x;
                if y < ops.len() {
                    assert(ops2[y] == ops[y]);
                    assert(is_parent(ops, x));
                    assert(!is_parent(ops, frontier[j]));
                } else {
                    assert(ops2[y] == lop);
                    assert(lop.parents@.contains(x));
                }
            }
        }
    }
    assert(!f2.contains(ROOT_ORDER)) by {
        if f2.contains(ROOT_ORDER) {
            let i = choose|i: int| 0 <= i < f2.len() && f2[i] == ROOT_ORDER;
            assert(i < f2.len() - 1);
            assert(rt[i] == ROOT_ORDER);
            assert(rt.contains(ROOT_ORDER));
            if ops.len() == 0 {
                assert(order_below(lop.parents@[0], 0));
                assert(lop.parents@.contains(ROOT_ORDER));
            }
        }
    }
    assert forall|i: int, j: int| 0 <= i < j < f2.len() implies f2[i] != f2[j] by {
        if j == f2.len() - 1 {
            assert(rt[i] == f2[i]);
            assert(rt.contains(f2[i]));
            let w = choose|w: int| 0 <= w < frontier.len() && frontier[w] == f2[i];
            assert(member_valid(ops, Option::None, frontier[w]));
        } else {
            assert(rt[i] == f2[i] && rt[j] == f2[j]);
        }
    }
    assert forall|o: u64| o < ops2.len() && !is_parent(ops2, o) implies #[trigger] f2.contains(o) by {
        if o != r {
            if is_parent(ops, o) {
                let x = choose|x: int| 0 <= x < ops.len() && (#[trigger] ops[x].parents@).contains(o);
                assert(ops2[x] == ops[x]);
                assert(is_parent(ops2, o));
            }
            assert(ops2[r as int] == lop);
            if lop.parents@.contains(o) {
                assert(ops2[ops.len() as int] == lop);
                assert(ops2[ops.len() as int].parents@.contains(o));
                assert(is_parent(ops2, o));
            }
            assert(frontier.contains(o));
            assert(retain_not_in(frontier, lop.parents@).contains(o));
            let i = choose|i: int|
                0 <= i < retain_not_in(frontier, lop.parents@).len() && retain_not_in(
                    frontier,
                    lop.parents@,
                )[i] == o;
            assert(f2[i] == o);
        }
    }
}

/// The id of a known string other than the root name is below the table's
/// length.
pub proof fn lemma_agent_id_below(names: Seq<Seq<char>>, s: Seq<char>)
    requires
        agent_names_wf(names),
    ensures
        agent_known(names, s) && s != root_agent_name() ==> agent_id_of(names, s) < names.len(),
{
    if agent_known(names, s) && s != root_agent_name() {
        let k = names.index_of(s);
        assert(0 <= k < names.len() && names[k] == s);
    }
}

/// Interning a string keeps the id of every string known before.
pub proof fn lemma_intern_keeps_ids(names: Seq<Seq<char>>, s: Seq<char>)
    requires
        agent_names_wf(names),
        agent_names_wf(names_after_intern(names, s)),
    ensures
        forall|t: Seq<char>|
            agent_known(names, t) ==> #[trigger] agent_known(names_after_intern(names, s), t),
        forall|t: Seq<char>|
            agent_known(names, t) ==> #[trigger] agent_id_of(names_after_intern(names, s), t)
                == agent_id_of(names, t),
        agent_known(names_after_intern(names, s), s),
        !agent_known(names, s) ==> agent_id_of(names_after_intern(names, s), s) == names.len(),
{
    let n2 = names_after_intern(names, s);
    assert forall|t: Seq<char>| agent_known(names, t) implies agent_known(n2, t) && agent_id_of(n2, t)
        == agent_id_of(names, t) by {
        if t != root_agent_name() {
            assert(names.contains(t));
            let k = names.index_of(t);
            assert(0 <= k < names.len() && names[k] == t);
            assert(n2[k] == t);
            lemma_index_of_distinct(n2, k);
        }
    }
    if !agent_known(names, s) {
        assert(n2[names.len() as int] == s);
        lemma_index_of_distinct(n2, names.len() as int);
    }
}

} // verus!
