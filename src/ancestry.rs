use vstd::prelude::*;
use crate::types::{LocalDocOp, LocalOperation, ROOT_ORDER};

verus! {

/// Position of the first doc op for `id` at or after `from`, or -1.
pub open spec fn doc_op_pos(doc_ops: Seq<LocalDocOp>, id: Seq<char>, from: int) -> int
    decreases doc_ops.len() - from,
{
    if from < 0 || from >= doc_ops.len() {
        -1
    } else if doc_ops[from].id@ == id {
        from
    } else {
        doc_op_pos(doc_ops, id, from + 1)
    }
}

/// Position of the first doc op for `id`, or -1.
pub open spec fn first_doc_op(doc_ops: Seq<LocalDocOp>, id: Seq<char>) -> int {
    doc_op_pos(doc_ops, id, 0)
}

pub open spec fn has_doc_op(doc_ops: Seq<LocalDocOp>, id: Seq<char>) -> bool {
    first_doc_op(doc_ops, id) >= 0
}

/// The document-scoped parents that an operation gives for `id`: those of its
/// first doc op for `id`.
pub open spec fn doc_parents(doc_ops: Seq<LocalDocOp>, id: Seq<char>) -> Seq<u64> {
    if has_doc_op(doc_ops, id) {
        doc_ops[first_doc_op(doc_ops, id)].parents@
    } else {
        Seq::empty()
    }
}

pub proof fn lemma_doc_op_pos(doc_ops: Seq<LocalDocOp>, id: Seq<char>, from: int)
    requires
        0 <= from,
    ensures
        doc_op_pos(doc_ops, id, from) >= 0 ==> from <= doc_op_pos(doc_ops, id, from) < doc_ops.len()
            && doc_ops[doc_op_pos(doc_ops, id, from)].id@ == id,
        forall|k: int|
            from <= k < doc_ops.len() && doc_ops[k].id@ == id ==> 0 <= doc_op_pos(doc_ops, id, from)
                <= k,
    decreases doc_ops.len() - from,
{
    if from < doc_ops.len() && doc_ops[from].id@ != id {
        lemma_doc_op_pos(doc_ops, id, from + 1);
    }
}

/// Whether an order names the root or a stored operation.
pub open spec fn order_valid(ops: Seq<LocalOperation>, o: u64) -> bool {
    o == ROOT_ORDER || o < ops.len()
}

/// Whether an order may stand in a document-scoped branch for `id`: a stored
/// operation that edits `id`, or the root, whose implicit value a document's
/// entries may still hold beside later edits.
pub open spec fn doc_order_valid(ops: Seq<LocalOperation>, id: Seq<char>, o: u64) -> bool {
    o == ROOT_ORDER || (o < ops.len() && has_doc_op(ops[o as int].doc_ops@, id))
}

/// Whether every member of `branch` may stand in a branch: in global mode
/// (`at` is `None`) any valid order; in document mode one valid for the
/// document.
pub open spec fn branch_valid(ops: Seq<LocalOperation>, branch: Seq<u64>, at: Option<Seq<char>>) -> bool {
    forall|i: int| 0 <= i < branch.len() ==> member_valid(ops, at, #[trigger] branch[i])
}

/// Whether `o` may stand in a branch: see `branch_valid`.
pub open spec fn member_valid(ops: Seq<LocalOperation>, at: Option<Seq<char>>, o: u64) -> bool {
    match at {
        Option::None => order_valid(ops, o),
        Some(id) => doc_order_valid(ops, id, o),
    }
}

/// The orders that ancestry steps to from stored operation `o`: globally its
/// parents and its predecessor from the same agent; in document mode the
/// parents of its doc op for the document.
pub open spec fn next_orders(ops: Seq<LocalOperation>, o: int, at: Option<Seq<char>>) -> Seq<u64> {
    match at {
        Option::None => ops[o].parents@ + match ops[o].succeeds {
            Some(s) => seq![s],
            Option::None => Seq::empty(),
        },
        Some(id) => doc_parents(ops[o].doc_ops@, id),
    }
}

/// Whether `target` is `from` or an ancestor of it, following steps that go
/// to strictly smaller orders.
pub open spec fn reaches(ops: Seq<LocalOperation>, from: u64, target: u64, at: Option<Seq<char>>) -> bool
    decreases from,
{
    if from == target {
        true
    } else if from >= ops.len() {
        false
    } else {
        exists|i: int|
            0 <= i < next_orders(ops, from as int, at).len() && #[trigger] next_orders(
                ops,
                from as int,
                at,
            )[i] < from && reaches(ops, next_orders(ops, from as int, at)[i], target, at)
    }
}

/// Whether some member of `branch` reaches `target`.
pub open spec fn branch_reaches(ops: Seq<LocalOperation>, branch: Seq<u64>, target: u64, at: Option<Seq<char>>) -> bool {
    exists|i: int| 0 <= i < branch.len() && reaches(ops, #[trigger] branch[i], target, at)
}

/// The answer of the ancestry query: false for an empty branch; else true
/// for the root, and for every order that a member of the branch reaches.
pub open spec fn branch_contains(ops: Seq<LocalOperation>, target: u64, branch: Seq<u64>, at: Option<Seq<char>>) -> bool {
    branch.len() > 0 && (target == ROOT_ORDER || branch_reaches(ops, branch, target, at))
}

/// The members of `branch` that `parents` does not hold, in their order.
pub open spec fn retain_not_in(branch: Seq<u64>, parents: Seq<u64>) -> Seq<u64>
    decreases branch.len(),
{
    if branch.len() == 0 {
        Seq::empty()
    } else {
        let rest = retain_not_in(branch.drop_last(), parents);
        if parents.contains(branch.last()) {
            rest
        } else {
            rest.push(branch.last())
        }
    }
}

pub proof fn lemma_retain_not_in(branch: Seq<u64>, parents: Seq<u64>)
    ensures
        forall|x: u64|
            #[trigger] retain_not_in(branch, parents).contains(x) <==> (branch.contains(x)
                && !parents.contains(x)),
    decreases branch.len(),
{
    if branch.len() > 0 {
        let b0 = branch.drop_last();
        lemma_retain_not_in(b0, parents);
        let rest = retain_not_in(b0, parents);
        assert forall|x: u64| #[trigger]
            retain_not_in(branch, parents).contains(x) <==> (branch.contains(x) && !parents.contains(
                x,
            )) by {
            if branch.contains(x) && x != branch.last() {
                let j = choose|j: int| 0 <= j < branch.len() && branch[j] == x;
                assert(b0[j] == x);
            }
            if b0.contains(x) {
                let j = choose|j: int| 0 <= j < b0.len() && b0[j] == x;
                assert(branch[j] == x);
            }
            if !parents.contains(branch.last()) {
                assert(rest.push(branch.last())[rest.len() as int] == branch.last());
                if rest.contains(x) {
                    let j = choose|j: int| 0 <= j < rest.len() && rest[j] == x;
                    assert(rest.push(branch.last())[j] == x);
                }
                if rest.push(branch.last()).contains(x) && x != branch.last() {
                    let j = choose|j: int|
                        0 <= j < rest.len() + 1 && rest.push(branch.last())[j] == x;
                    assert(rest[j] == x);
                }
            }
            assert(branch[branch.len() - 1] == branch.last());
        }
    }
}

/// Retaining keeps a sequence without repeats free of them.
pub proof fn lemma_retain_no_dup(branch: Seq<u64>, parents: Seq<u64>)
    requires
        forall|i: int, j: int| 0 <= i < j < branch.len() ==> branch[i] != branch[j],
    ensures
        forall|i: int, j: int|
            0 <= i < j < retain_not_in(branch, parents).len() ==> retain_not_in(branch, parents)[i]
                != retain_not_in(branch, parents)[j],
    decreases branch.len(),
{
    if branch.len() > 0 {
        let b0 = branch.drop_last();
        lemma_retain_no_dup(b0, parents);
        lemma_retain_not_in(b0, parents);
        let rest = retain_not_in(b0, parents);
        if !parents.contains(branch.last()) {
            assert(!rest.contains(branch.last())) by {
                if rest.contains(branch.last()) {
                    let j = choose|j: int| 0 <= j < b0.len() && b0[j] == branch.last();
                    assert(branch[j] == branch[branch.len() - 1]);
                }
            }
            let w = rest.push(branch.last());
            assert forall|i: int, j: int| 0 <= i < j < w.len() implies w[i] != w[j] by {
                if j == w.len() - 1 {
                    assert(w[i] == rest[i]);
                    assert(rest.contains(rest[i]));
                }
            }
        }
    }
}

/// Appending an operation leaves ancestry from every other order unchanged.
pub proof fn lemma_reaches_push(
    ops: Seq<LocalOperation>,
    x: LocalOperation,
    from: u64,
    target: u64,
    at: Option<Seq<char>>,
)
    requires
        from != ops.len(),
    ensures
        reaches(ops.push(x), from, target, at) == reaches(ops, from, target, at),
    decreases from,
{
    let ops2 = ops.push(x);
    if from != target && from < ops.len() {
        assert(ops2[from as int] == ops[from as int]);
        assert(next_orders(ops2, from as int, at) == next_orders(ops, from as int, at));
        assert forall|i: int| 0 <= i < next_orders(ops, from as int, at).len() && #[trigger] next_orders(
            ops,
            from as int,
            at,
        )[i] < from implies reaches(ops2, next_orders(ops, from as int, at)[i], target, at)
            == reaches(ops, next_orders(ops, from as int, at)[i], target, at) by {
            lemma_reaches_push(ops, x, next_orders(ops, from as int, at)[i], target, at);
        }
    }
}

/// Ancestry never goes up.
pub proof fn lemma_reaches_le(ops: Seq<LocalOperation>, a: u64, b: u64, at: Option<Seq<char>>)
    requires
        reaches(ops, a, b, at),
    ensures
        a == b || b < a,
    decreases a,
{
    if a != b {
        let j = choose|j: int|
            0 <= j < next_orders(ops, a as int, at).len() && #[trigger] next_orders(ops, a as int, at)[j]
                < a && reaches(ops, next_orders(ops, a as int, at)[j], b, at);
        lemma_reaches_le(ops, next_orders(ops, a as int, at)[j], b, at);
    }
}

/// Ancestry is transitive.
pub proof fn lemma_reaches_trans(ops: Seq<LocalOperation>, a: u64, b: u64, c: u64, at: Option<Seq<char>>)
    requires
        reaches(ops, a, b, at),
        reaches(ops, b, c, at),
    ensures
        reaches(ops, a, c, at),
    decreases a,
{
    if a != b && a != c {
        let j = choose|j: int|
            0 <= j < next_orders(ops, a as int, at).len() && #[trigger] next_orders(ops, a as int, at)[j]
                < a && reaches(ops, next_orders(ops, a as int, at)[j], b, at);
        lemma_reaches_trans(ops, next_orders(ops, a as int, at)[j], b, c, at);
    }
}

/// A finite set of orders below `n` has at most `n` members.
pub proof fn lemma_bounded_set_len(s: Set<u64>, n: u64)
    requires
        s.finite(),
        forall|x: u64| s.contains(x) ==> x < n,
    ensures
        s.len() <= n,
    decreases n,
{
    if n == 0 {
        assert(s =~= Set::<u64>::empty());
    } else {
        let m = (n - 1) as u64;
        let s2 = s.remove(m);
        lemma_bounded_set_len(s2, m);
    }
}

/// Removing the last element keeps every other member.
pub proof fn lemma_pop_contains(q: Seq<u64>, c: u64)
    requires
        q.len() > 0,
        q.contains(c),
    ensures
        q.drop_last().contains(c) || q.last() == c,
{
    let j = choose|j: int| 0 <= j < q.len() && q[j] == c;
    if j < q.len() - 1 {
        assert(q.drop_last()[j] == c);
    }
}

/// An empty branch contains nothing, not even the root; a non-empty branch
/// contains the root.
pub proof fn lemma_branch_contains_bounds(ops: Seq<LocalOperation>, target: u64, branch: Seq<u64>, at: Option<Seq<char>>)
    ensures
        branch.len() == 0 ==> !branch_contains(ops, target, branch, at),
        branch.len() > 0 ==> branch_contains(ops, ROOT_ORDER, branch, at),
{
}

/// An order below the target never reaches it.
pub proof fn lemma_below_unreachable(ops: Seq<LocalOperation>, v: u64, target: u64, at: Option<Seq<char>>)
    requires
        v < target,
    ensures
        !reaches(ops, v, target, at),
    decreases v,
{
    if v < ops.len() {
        assert forall|i: int|
            0 <= i < next_orders(ops, v as int, at).len() && #[trigger] next_orders(ops, v as int, at)[i]
                < v implies !reaches(ops, next_orders(ops, v as int, at)[i], target, at) by {
            lemma_below_unreachable(ops, next_orders(ops, v as int, at)[i], target, at);
        }
    }
}

/// Ancestry is transitive over one step.
pub proof fn lemma_reaches_step(ops: Seq<LocalOperation>, a: u64, v: u64, i: int, at: Option<Seq<char>>)
    requires
        reaches(ops, a, v, at),
        v < ops.len(),
        0 <= i < next_orders(ops, v as int, at).len(),
        next_orders(ops, v as int, at)[i] < v,
    ensures
        reaches(ops, a, next_orders(ops, v as int, at)[i], at),
    decreases a,
{
    let c = next_orders(ops, v as int, at)[i];
    if a == v {
        assert(reaches(ops, c, c, at));
    } else if a != c {
        let j = choose|j: int|
            0 <= j < next_orders(ops, a as int, at).len() && #[trigger] next_orders(ops, a as int, at)[j]
                < a && reaches(ops, next_orders(ops, a as int, at)[j], v, at);
        lemma_reaches_step(ops, next_orders(ops, a as int, at)[j], v, i, at);
    }
}

/// A set of orders that holds no target, and that holds every step of each of
/// its stored members above the target, holds nothing that reaches the target.
pub proof fn lemma_closed_unreachable(
    ops: Seq<LocalOperation>,
    s: Set<u64>,
    target: u64,
    at: Option<Seq<char>>,
    v: u64,
)
    requires
        !s.contains(target),
        forall|u: u64|
            #[trigger] s.contains(u) && target < u < ops.len() ==> forall|k: int|
                0 <= k < next_orders(ops, u as int, at).len() ==> s.contains(
                    #[trigger] next_orders(ops, u as int, at)[k],
                ),
        s.contains(v),
    ensures
        !reaches(ops, v, target, at),
    decreases v,
{
    if v < target {
        lemma_below_unreachable(ops, v, target, at);
    } else if v < ops.len() {
        assert forall|i: int|
            0 <= i < next_orders(ops, v as int, at).len() && #[trigger] next_orders(ops, v as int, at)[i]
                < v implies !reaches(ops, next_orders(ops, v as int, at)[i], target, at) by {
            lemma_closed_unreachable(ops, s, target, at, next_orders(ops, v as int, at)[i]);
        }
    }
}

} // verus!
