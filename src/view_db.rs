use vstd::prelude::*;
use crate::ancestry::{
    branch_contains, branch_reaches, branch_valid, doc_order_valid, first_doc_op, has_doc_op,
    lemma_below_unreachable, lemma_doc_op_pos, lemma_reaches_le, lemma_reaches_push,
    lemma_reaches_trans, lemma_retain_not_in, member_valid, next_orders, reaches, retain_not_in,
};
use crate::op_db::{contains_order, doc_parent_ok, op_wf, order_below, OpDb};
use crate::doc_op_entry;
use crate::types::{
    spec_root_version, LocalDocOp, LocalVersion, duplicate_entries, entries_view, DbValueSingle, DocId, DocValue, LocalOperation, Order,
    ROOT_ORDER,
};

verus! {

/// One entry of a multi-value state, as a view: the order that wrote it and
/// the value.
pub type EntryView = (Order, Option<Seq<u8>>);

/// The state of document `id` in `docs`: what is stored, or the implicit root
/// value for a document that holds nothing.
pub open spec fn doc_value(docs: Map<Seq<char>, Seq<EntryView>>, id: Seq<char>) -> Seq<EntryView> {
    if docs.contains_key(id) {
        docs[id]
    } else {
        seq![(ROOT_ORDER, Option::<Seq<u8>>::None)]
    }
}

/// The orders of a multi-value state.
pub open spec fn orders_of(vals: Seq<EntryView>) -> Seq<Order> {
    vals.map_values(|e: EntryView| e.0)
}

/// Whether the entries are sorted by order, ascending.
pub open spec fn sorted_by_order(vals: Seq<EntryView>) -> bool {
    forall|i: int, j: int| 0 <= i < j < vals.len() ==> vals[i].0 <= vals[j].0
}

/// Whether every entry was written by the root or by an operation that edits
/// document `id`.
pub open spec fn entries_valid(ops: Seq<LocalOperation>, id: Seq<char>, vals: Seq<EntryView>) -> bool {
    forall|i: int| 0 <= i < vals.len() ==> doc_order_valid(ops, id, #[trigger] vals[i].0)
}

/// The entries of `prev` whose order `parents` does not hold, in their order.
pub open spec fn survivors(prev: Seq<EntryView>, parents: Seq<Order>) -> Seq<EntryView>
    decreases prev.len(),
{
    if prev.len() == 0 {
        Seq::empty()
    } else {
        let rest = survivors(prev.drop_last(), parents);
        if parents.contains(prev.last().0) {
            rest
        } else {
            rest.push(prev.last())
        }
    }
}

/// `s` with `e` placed after every leading entry whose order is at most
/// `e`'s.
pub open spec fn insert_by_order(s: Seq<EntryView>, e: EntryView) -> Seq<EntryView>
    decreases s.len(),
{
    if s.len() == 0 {
        seq![e]
    } else if e.0 < s[0].0 {
        seq![e] + s
    } else {
        seq![s[0]] + insert_by_order(s.drop_first(), e)
    }
}

/// `s` sorted by order, ascending; entries of equal order keep their
/// relative position.
pub open spec fn sort_by_order(s: Seq<EntryView>) -> Seq<EntryView>
    decreases s.len(),
{
    if s.len() == 0 {
        Seq::empty()
    } else {
        insert_by_order(sort_by_order(s.drop_last()), s.last())
    }
}

/// The state of a document after an edit by `order` with value `patch` that
/// supersedes `parents`: the new entry with every entry not superseded,
/// sorted by order.
pub open spec fn forward_value(prev: Seq<EntryView>, parents: Seq<Order>, order: Order, patch: Option<Seq<u8>>) -> Seq<EntryView> {
    sort_by_order(seq![(order, patch)] + survivors(prev, parents))
}

/// The documents after applying the doc ops `doc_ops` of operation `order`,
/// one after the other.
pub open spec fn forwards_docs(
    docs: Map<Seq<char>, Seq<EntryView>>,
    doc_ops: Seq<LocalDocOp>,
    order: Order,
) -> Map<Seq<char>, Seq<EntryView>>
    decreases doc_ops.len(),
{
    if doc_ops.len() == 0 {
        docs
    } else {
        let d = forwards_docs(docs, doc_ops.drop_last(), order);
        let dop = doc_ops.last();
        d.insert(dop.id@, forward_value(doc_value(d, dop.id@), dop.parents@, order, dop.patch@))
    }
}

proof fn lemma_survivors_members(prev: Seq<EntryView>, parents: Seq<Order>)
    ensures
        forall|x: EntryView| #[trigger] survivors(prev, parents).contains(x) ==> prev.contains(x),
    decreases prev.len(),
{
    if prev.len() > 0 {
        lemma_survivors_members(prev.drop_last(), parents);
        let rest = survivors(prev.drop_last(), parents);
        assert forall|x: EntryView| #[trigger] survivors(prev, parents).contains(x) implies prev.contains(x) by {
            if rest.contains(x) {
                let j = choose|j: int| 0 <= j < prev.drop_last().len() && prev.drop_last()[j] == x;
                assert(prev[j] == x);
            } else {
                assert(prev[prev.len() - 1] == x);
            }
        }
    }
}

/// Inserting by order keeps a sorted sequence sorted, adds `e`, and adds
/// nothing else.
proof fn lemma_insert_by_order(s: Seq<EntryView>, e: EntryView)
    ensures
        insert_by_order(s, e).len() == s.len() + 1,
        forall|x: EntryView| #[trigger] insert_by_order(s, e).contains(x) ==> x == e || s.contains(x),
        insert_by_order(s, e).contains(e),
        sorted_by_order(s) ==> sorted_by_order(insert_by_order(s, e)),
    decreases s.len(),
{
    let r = insert_by_order(s, e);
    if s.len() == 0 {
        assert(r[0] == e);
    } else if e.0 < s[0].0 {
        assert(r[0] == e);
        assert forall|x: EntryView| #[trigger] r.contains(x) implies x == e || s.contains(x) by {
            let j = choose|j: int| 0 <= j < r.len() && r[j] == x;
            if j > 0 {
                assert(s[j - 1] == x);
            }
        }
    } else {
        let t = s.drop_first();
        lemma_insert_by_order(t, e);
        let rt = insert_by_order(t, e);
        assert(r == seq![s[0]] + rt);
        let k = choose|k: int| 0 <= k < rt.len() && rt[k] == e;
        assert(r[k + 1] == e);
        assert forall|x: EntryView| #[trigger] r.contains(x) implies x == e || s.contains(x) by {
            let j = choose|j: int| 0 <= j < r.len() && r[j] == x;
            if j == 0 {
                assert(s[0] == x);
            } else {
                assert(rt[j - 1] == x);
                assert(rt.contains(x));
                if x != e {
                    let m = choose|m: int| 0 <= m < t.len() && t[m] == x;
                    assert(s[m + 1] == x);
                }
            }
        }
        if sorted_by_order(s) {
            assert forall|i: int, j: int| 0 <= i < j < r.len() implies r[i].0 <= r[j].0 by {
                if i > 0 {
                    assert(rt[i - 1] == r[i]);
                    assert(rt[j - 1] == r[j]);
                } else {
                    assert(rt[j - 1] == r[j]);
                    assert(rt.contains(r[j]));
                    if r[j] != e {
                        let m = choose|m: int| 0 <= m < t.len() && t[m] == r[j];
                        assert(s[m + 1] == r[j]);
                    }
                }
            }
        }
    }
}

/// Sorting by order gives a sorted sequence of the same entries.
pub proof fn lemma_sort_by_order(s: Seq<EntryView>)
    ensures
        sort_by_order(s).len() == s.len(),
        sorted_by_order(sort_by_order(s)),
        forall|x: EntryView| #[trigger] sort_by_order(s).contains(x) ==> s.contains(x),
        forall|x: EntryView| #[trigger] s.contains(x) ==> sort_by_order(s).contains(x),
    decreases s.len(),
{
    if s.len() > 0 {
        let t = s.drop_last();
        lemma_sort_by_order(t);
        lemma_insert_by_order(sort_by_order(t), s.last());
        let r = sort_by_order(s);
        assert forall|x: EntryView| #[trigger] r.contains(x) implies s.contains(x) by {
            if x != s.last() {
                assert(sort_by_order(t).contains(x));
                let m = choose|m: int| 0 <= m < t.len() && t[m] == x;
                assert(s[m] == x);
            } else {
                assert(s[s.len() - 1] == x);
            }
        }
        assert forall|x: EntryView| #[trigger] s.contains(x) implies r.contains(x) by {
            let m = choose|m: int| 0 <= m < s.len() && s[m] == x;
            if m < s.len() - 1 {
                assert(t[m] == x);
                assert(t.contains(x));
                assert(sort_by_order(t).contains(x));
                let q = choose|q: int| 0 <= q < sort_by_order(t).len() && sort_by_order(t)[q] == x;
                lemma_insert_keeps(sort_by_order(t), s.last(), q);
            }
        }
    }
}

/// Inserting keeps every entry that was there.
proof fn lemma_insert_keeps(s: Seq<EntryView>, e: EntryView, q: int)
    requires
        0 <= q < s.len(),
    ensures
        insert_by_order(s, e).contains(s[q]),
    decreases s.len(),
{
    let r = insert_by_order(s, e);
    if e.0 < s[0].0 {
        assert(r[q + 1] == s[q]);
    } else if q == 0 {
        assert(r[0] == s[0]);
    } else {
        let t = s.drop_first();
        lemma_insert_keeps(t, e, q - 1);
        let rt = insert_by_order(t, e);
        let k = choose|k: int| 0 <= k < rt.len() && rt[k] == t[q - 1];
        assert(r[k + 1] == s[q]);
    }
}

/// Inserting at the first position whose order exceeds `e`'s is
/// `insert_by_order`.
proof fn lemma_insert_by_order_at(s: Seq<EntryView>, e: EntryView, p: int)
    requires
        0 <= p <= s.len(),
        forall|j: int| 0 <= j < p ==> s[j].0 <= e.0,
        p < s.len() ==> s[p].0 > e.0,
    ensures
        insert_by_order(s, e) == s.insert(p, e),
    decreases s.len(),
{
    if s.len() == 0 {
        assert(s.insert(p, e) =~= seq![e]);
    } else if p == 0 {
        assert(s.insert(p, e) =~= seq![e] + s);
    } else {
        let t = s.drop_first();
        lemma_insert_by_order_at(t, e, p - 1);
        assert(s.insert(p, e) =~= seq![s[0]] + t.insert(p - 1, e));
    }
}

/// Inserts `e` into `v` by order, as `insert_by_order` does.
fn insert_entry(v: &mut Vec<DbValueSingle>, e: DbValueSingle)
    ensures
        entries_view(final(v)@) == insert_by_order(entries_view(old(v)@), e@),
{
    let mut p: usize = 0;
    while p < v.len() && v[p].order <= e.order
        invariant
            p <= v@.len(),
            forall|j: int| 0 <= j < p ==> v@[j].order <= e.order,
        decreases v@.len() - p,
    {
        p = p + 1;
    }
    let ghost s = entries_view(v@);
    let ghost ev = e@;
    proof {
        lemma_insert_by_order_at(s, ev, p as int);
    }
    v.insert(p, e);
    assert(entries_view(v@) =~= s.insert(p as int, ev));
}

/// The entries of `v` sorted by order, as `sort_by_order` gives them.
fn sort_entries(v: &Vec<DbValueSingle>) -> (r: Vec<DbValueSingle>)
    ensures
        entries_view(r@) == sort_by_order(entries_view(v@)),
{
    let mut r: Vec<DbValueSingle> = Vec::new();
    let mut i: usize = 0;
    while i < v.len()
        invariant
            i <= v@.len(),
            entries_view(r@) == sort_by_order(entries_view(v@.subrange(0, i as int))),
        decreases v@.len() - i,
    {
        insert_entry(&mut r, v[i].duplicate());
        proof {
            let s1 = entries_view(v@.subrange(0, i + 1));
            assert(s1.drop_last() =~= entries_view(v@.subrange(0, i as int)));
            assert(s1.last() == v@[i as int]@);
        }
        i = i + 1;
    }
    assert(v@.subrange(0, i as int) =~= v@);
    r
}

/// Position of the first `x` in `s` at or after `from`, or -1.
pub open spec fn first_pos(s: Seq<Order>, x: Order, from: int) -> int
    decreases s.len() - from,
{
    if from < 0 || from >= s.len() {
        -1
    } else if s[from] == x {
        from
    } else {
        first_pos(s, x, from + 1)
    }
}

proof fn lemma_first_pos(s: Seq<Order>, x: Order, from: int)
    requires
        0 <= from,
    ensures
        first_pos(s, x, from) >= 0 ==> from <= first_pos(s, x, from) < s.len() && s[first_pos(s, x, from)] == x,
        (exists|k: int| from <= k < s.len() && s[k] == x) ==> first_pos(s, x, from) >= 0,
    decreases s.len() - from,
{
    if from < s.len() && s[from] != x {
        lemma_first_pos(s, x, from + 1);
        if exists|k: int| from <= k < s.len() && s[k] == x {
            let k = choose|k: int| from <= k < s.len() && s[k] == x;
            assert(from + 1 <= k);
        }
    }
}

/// `branch` with each of `parents`, in turn, appended when the branch built
/// so far does not contain it.
pub open spec fn add_uncontained(ops: Seq<LocalOperation>, branch: Seq<Order>, parents: Seq<Order>) -> Seq<Order>
    decreases parents.len(),
{
    if parents.len() == 0 {
        branch
    } else {
        let b = add_uncontained(ops, branch, parents.drop_last());
        if branch_contains(ops, parents.last(), b, Option::None) {
            b
        } else {
            b.push(parents.last())
        }
    }
}

/// The branch after retracting `order`: it leaves its place to the last
/// member, and its parents come back where the rest does not contain them.
pub open spec fn branch_after_backwards(ops: Seq<LocalOperation>, branch: Seq<Order>, order: Order) -> Seq<Order> {
    let i = first_pos(branch, order, 0);
    add_uncontained(ops, branch.update(i, branch.last()).drop_last(), ops[order as int].parents@)
}

/// The entries of `prev` not written by `order`.
pub open spec fn without_order(prev: Seq<EntryView>, order: Order) -> Seq<EntryView>
    decreases prev.len(),
{
    if prev.len() == 0 {
        Seq::empty()
    } else {
        let rest = without_order(prev.drop_last(), order);
        if prev.last().0 == order {
            rest
        } else {
            rest.push(prev.last())
        }
    }
}

/// The value that stored operation `p` wrote to document `id`.
pub open spec fn parent_patch(ops: Seq<LocalOperation>, p: Order, id: Seq<char>) -> Option<Seq<u8>> {
    ops[p as int].doc_ops@[first_doc_op(ops[p as int].doc_ops@, id)].patch@
}

/// The entries of the parents (other than the root) that no order of `kept`
/// contains in document `id`, in the order of `parents`.
pub open spec fn restored(ops: Seq<LocalOperation>, id: Seq<char>, kept: Seq<Order>, parents: Seq<Order>) -> Seq<EntryView>
    decreases parents.len(),
{
    if parents.len() == 0 {
        Seq::empty()
    } else {
        let r = restored(ops, id, kept, parents.drop_last());
        let p = parents.last();
        if branch_contains(ops, p, kept, Some(id)) || p == ROOT_ORDER {
            r
        } else {
            r.push((p, parent_patch(ops, p, id)))
        }
    }
}

/// The state of a document after retracting the edit `dop` of `order`: the
/// entries of others and the superseded parents that nothing left contains,
/// sorted by order.
pub open spec fn backward_value(
    ops: Seq<LocalOperation>,
    prev: Seq<EntryView>,
    dop: LocalDocOp,
    order: Order,
) -> Seq<EntryView> {
    let kept = without_order(prev, order);
    sort_by_order(kept + restored(ops, dop.id@, orders_of(kept), dop.parents@))
}

/// Whether retracting `dop` meets the root the way it must: when no entry
/// is left, the root may only come before every other parent.
pub open spec fn backward_ok(prev: Seq<EntryView>, dop: LocalDocOp, order: Order) -> bool {
    without_order(prev, order).len() == 0 ==> forall|i: int, j: int|
        0 <= i < j < dop.parents@.len() && dop.parents@[j] == ROOT_ORDER ==> dop.parents@[i] == ROOT_ORDER
}

/// The documents after retracting the doc ops `doc_ops` of `order`, one
/// after the other; a document left with nothing returns to the root value.
pub open spec fn backwards_docs(
    ops: Seq<LocalOperation>,
    docs: Map<Seq<char>, Seq<EntryView>>,
    doc_ops: Seq<LocalDocOp>,
    order: Order,
) -> Map<Seq<char>, Seq<EntryView>>
    decreases doc_ops.len(),
{
    if doc_ops.len() == 0 {
        docs
    } else {
        let d = backwards_docs(ops, docs, doc_ops.drop_last(), order);
        let dop = doc_ops.last();
        let v = backward_value(ops, doc_value(d, dop.id@), dop, order);
        if v.len() == 0 {
            d.remove(dop.id@)
        } else {
            d.insert(dop.id@, v)
        }
    }
}

/// Whether `backward_ok` holds at each doc op of the retraction.
pub open spec fn backwards_ok(
    ops: Seq<LocalOperation>,
    docs: Map<Seq<char>, Seq<EntryView>>,
    doc_ops: Seq<LocalDocOp>,
    order: Order,
) -> bool
    decreases doc_ops.len(),
{
    if doc_ops.len() == 0 {
        true
    } else {
        &&& backwards_ok(ops, docs, doc_ops.drop_last(), order)
        &&& backward_ok(doc_value(backwards_docs(ops, docs, doc_ops.drop_last(), order), doc_ops.last().id@), doc_ops.last(), order)
    }
}

proof fn lemma_backwards_ok_prefix(
    ops: Seq<LocalOperation>,
    docs: Map<Seq<char>, Seq<EntryView>>,
    doc_ops: Seq<LocalDocOp>,
    order: Order,
    k: int,
)
    requires
        backwards_ok(ops, docs, doc_ops, order),
        0 <= k <= doc_ops.len(),
    ensures
        backwards_ok(ops, docs, doc_ops.subrange(0, k), order),
    decreases doc_ops.len() - k,
{
    if k < doc_ops.len() {
        lemma_backwards_ok_prefix(ops, docs, doc_ops.drop_last(), order, k);
        assert(doc_ops.drop_last().subrange(0, k) =~= doc_ops.subrange(0, k));
    } else {
        assert(doc_ops.subrange(0, k) =~= doc_ops);
    }
}

proof fn lemma_without_order_members(prev: Seq<EntryView>, order: Order)
    ensures
        forall|x: EntryView| #[trigger] without_order(prev, order).contains(x) ==> prev.contains(x),
    decreases prev.len(),
{
    if prev.len() > 0 {
        lemma_without_order_members(prev.drop_last(), order);
        let rest = without_order(prev.drop_last(), order);
        assert forall|x: EntryView| #[trigger] without_order(prev, order).contains(x) implies prev.contains(x) by {
            if rest.contains(x) {
                let j = choose|j: int| 0 <= j < prev.drop_last().len() && prev.drop_last()[j] == x;
                assert(prev[j] == x);
            } else {
                assert(prev[prev.len() - 1] == x);
            }
        }
    }
}

/// Restored entries are written by their parent, each valid for the document.
proof fn lemma_restored_valid(ops: Seq<LocalOperation>, id: Seq<char>, kept: Seq<Order>, parents: Seq<Order>)
    requires
        forall|j: int| 0 <= j < parents.len() ==> doc_order_valid(ops, id, #[trigger] parents[j]),
    ensures
        entries_valid(ops, id, restored(ops, id, kept, parents)),
    decreases parents.len(),
{
    if parents.len() > 0 {
        let pd = parents.drop_last();
        assert forall|j: int| 0 <= j < pd.len() implies doc_order_valid(ops, id, #[trigger] pd[j]) by {
            assert(pd[j] == parents[j]);
        }
        lemma_restored_valid(ops, id, kept, pd);
        assert(doc_order_valid(ops, id, parents[parents.len() - 1]));
    }
}

/// Parents that are all the root restore nothing.
proof fn lemma_restored_roots(ops: Seq<LocalOperation>, id: Seq<char>, kept: Seq<Order>, parents: Seq<Order>)
    requires
        forall|j: int| 0 <= j < parents.len() ==> #[trigger] parents[j] == ROOT_ORDER,
    ensures
        restored(ops, id, kept, parents).len() == 0,
    decreases parents.len(),
{
    if parents.len() > 0 {
        let pd = parents.drop_last();
        assert forall|j: int| 0 <= j < pd.len() implies #[trigger] pd[j] == ROOT_ORDER by {
            assert(pd[j] == parents[j]);
        }
        lemma_restored_roots(ops, id, kept, pd);
    }
}

/// The version of an order: the root version for the root order.
pub open spec fn order_version(ops: Seq<LocalOperation>, o: Order) -> LocalVersion {
    if o == ROOT_ORDER {
        spec_root_version()
    } else {
        ops[o as int].version
    }
}

/// Whether every stored document is sorted by order.
pub open spec fn docs_sorted(docs: Map<Seq<char>, Seq<EntryView>>) -> bool {
    forall|id: Seq<char>| #[trigger] docs.contains_key(id) ==> sorted_by_order(docs[id])
}

/// Forward application keeps every document sorted by order.
pub proof fn lemma_forwards_docs_sorted(
    docs: Map<Seq<char>, Seq<EntryView>>,
    doc_ops: Seq<LocalDocOp>,
    order: Order,
)
    requires
        docs_sorted(docs),
    ensures
        docs_sorted(forwards_docs(docs, doc_ops, order)),
    decreases doc_ops.len(),
{
    if doc_ops.len() > 0 {
        lemma_forwards_docs_sorted(docs, doc_ops.drop_last(), order);
        let d = forwards_docs(docs, doc_ops.drop_last(), order);
        let dop = doc_ops.last();
        lemma_sort_by_order(seq![(order, dop.patch@)] + survivors(doc_value(d, dop.id@), dop.parents@));
    }
}

/// Views well formed against some operations stay so when one is appended.
pub proof fn lemma_view_wf_push(v: &ViewDb, ops: Seq<LocalOperation>, x: LocalOperation)
    requires
        v.wf(ops),
    ensures
        v.wf(ops.push(x)),
{
    let ops2 = ops.push(x);
    assert forall|i: int| 0 <= i < v.spec_branch().len() implies member_valid(
        ops2,
        Option::None,
        #[trigger] v.spec_branch()[i],
    ) by {
        assert(member_valid(ops, Option::None, v.spec_branch()[i]));
    }
    assert forall|id: Seq<char>| #[trigger] v.spec_docs().contains_key(id) implies v.spec_docs()[id].len()
        > 0 && entries_valid(ops2, id, v.spec_docs()[id]) by {
        let vals = v.spec_docs()[id];
        assert forall|i: int| 0 <= i < vals.len() implies doc_order_valid(ops2, id, #[trigger] vals[i].0) by {
            assert(doc_order_valid(ops, id, vals[i].0));
            if vals[i].0 != ROOT_ORDER {
                assert(ops2[vals[i].0 as int] == ops[vals[i].0 as int]);
            }
        }
    }
}

/// No order of `vals` is a document-scoped ancestor of another.
pub open spec fn doc_antichain(ops: Seq<LocalOperation>, id: Seq<char>, vals: Seq<EntryView>) -> bool {
    forall|i: int, j: int|
        0 <= i < vals.len() && 0 <= j < vals.len() && vals[i].0 != vals[j].0 ==> !reaches(
            ops,
            #[trigger] vals[i].0,
            #[trigger] vals[j].0,
            Some(id),
        )
}

/// Every order that may stand for document `id` is contained, within the
/// document, in the orders of `vals`.
pub open spec fn doc_covers(ops: Seq<LocalOperation>, id: Seq<char>, vals: Seq<EntryView>) -> bool {
    forall|p: u64| doc_order_valid(ops, id, p) ==> #[trigger] branch_contains(ops, p, orders_of(vals), Some(id))
}

/// No stored operation edits one document twice.
pub open spec fn distinct_doc_ids(ops: Seq<LocalOperation>) -> bool {
    forall|o: int, k1: int, k2: int|
        0 <= o < ops.len() && 0 <= k1 < ops[o].doc_ops@.len() && 0 <= k2 < ops[o].doc_ops@.len() && k1
            != k2 ==> (#[trigger] ops[o].doc_ops@[k1]).id@ != (#[trigger] ops[o].doc_ops@[k2]).id@
}

/// Every document's state is an antichain that covers all its edits.
pub open spec fn docs_consistent(ops: Seq<LocalOperation>, docs: Map<Seq<char>, Seq<EntryView>>) -> bool {
    forall|id: Seq<char>|
        doc_antichain(ops, id, #[trigger] doc_value(docs, id)) && doc_covers(ops, id, doc_value(docs, id))
}

/// Forward application leaves a document that no doc op edits as it was.
pub proof fn lemma_forwards_docs_other(
    docs: Map<Seq<char>, Seq<EntryView>>,
    doc_ops: Seq<LocalDocOp>,
    order: Order,
    id: Seq<char>,
)
    requires
        forall|k: int| 0 <= k < doc_ops.len() ==> (#[trigger] doc_ops[k]).id@ != id,
    ensures
        doc_value(forwards_docs(docs, doc_ops, order), id) == doc_value(docs, id),
        forwards_docs(docs, doc_ops, order).contains_key(id) == docs.contains_key(id),
    decreases doc_ops.len(),
{
    if doc_ops.len() > 0 {
        let pre = doc_ops.drop_last();
        assert forall|k: int| 0 <= k < pre.len() implies (#[trigger] pre[k]).id@ != id by {
            assert(pre[k] == doc_ops[k]);
        }
        lemma_forwards_docs_other(docs, pre, order, id);
        assert(doc_ops.last() == doc_ops[doc_ops.len() - 1]);
    }
}

/// Forward application gives a document edited by exactly one doc op the
/// forward value of that edit.
pub proof fn lemma_forwards_docs_one(
    docs: Map<Seq<char>, Seq<EntryView>>,
    doc_ops: Seq<LocalDocOp>,
    order: Order,
    id: Seq<char>,
    k: int,
)
    requires
        0 <= k < doc_ops.len(),
        doc_ops[k].id@ == id,
        forall|j: int| 0 <= j < doc_ops.len() && j != k ==> (#[trigger] doc_ops[j]).id@ != id,
    ensures
        doc_value(forwards_docs(docs, doc_ops, order), id) == forward_value(
            doc_value(docs, id),
            doc_ops[k].parents@,
            order,
            doc_ops[k].patch@,
        ),
    decreases doc_ops.len(),
{
    let pre = doc_ops.drop_last();
    if k < doc_ops.len() - 1 {
        assert forall|j: int| 0 <= j < pre.len() && j != k implies (#[trigger] pre[j]).id@ != id by {
            assert(pre[j] == doc_ops[j]);
        }
        assert(pre[k] == doc_ops[k]);
        lemma_forwards_docs_one(docs, pre, order, id, k);
        assert(doc_ops.last() == doc_ops[doc_ops.len() - 1]);
    } else {
        assert forall|j: int| 0 <= j < pre.len() implies (#[trigger] pre[j]).id@ != id by {
            assert(pre[j] == doc_ops[j]);
        }
        lemma_forwards_docs_other(docs, pre, order, id);
        assert(doc_ops.last() == doc_ops[k]);
    }
}

/// The forward value of an edit by a new operation, whose document parents
/// are `next_orders` of it, is an antichain that covers every edit, when the
/// previous state was one.
pub proof fn lemma_forward_consistent(
    ops: Seq<LocalOperation>,
    lop: LocalOperation,
    id: Seq<char>,
    prev: Seq<EntryView>,
    parents: Seq<Order>,
    patch: Option<Seq<u8>>,
)
    requires
        lop.order == ops.len(),
        ops.len() + 1 < ROOT_ORDER,
        parents == next_orders(ops.push(lop), ops.len() as int, Some(id)),
        has_doc_op(lop.doc_ops@, id),
        forall|i: int|
            0 <= i < parents.len() ==> ((#[trigger] parents[i]) == ROOT_ORDER || (parents[i] < ops.len()
                && has_doc_op(ops[parents[i] as int].doc_ops@, id))),
        entries_valid(ops, id, prev),
        doc_antichain(ops, id, prev),
        doc_covers(ops, id, prev),
    ensures
        doc_antichain(ops.push(lop), id, forward_value(prev, parents, lop.order, patch)),
        doc_covers(ops.push(lop), id, forward_value(prev, parents, lop.order, patch)),
{
    let ops2 = ops.push(lop);
    let o = lop.order;
    let e = (o, patch);
    let surv = survivors(prev, parents);
    let s0 = seq![e] + surv;
    let r = forward_value(prev, parents, o, patch);
    let at = Some(id);
    lemma_sort_by_order(s0);
    lemma_survivors_members(prev, parents);
    lemma_survivors_exclude(prev, parents);
    assert(ops2[o as int] == lop);
    // Each entry of the result is the new one or a survivor from `prev`.
    assert forall|x: EntryView| #[trigger] r.contains(x) implies x == e || (surv.contains(x) && prev.contains(x)) by {
        assert(s0.contains(x));
        let j = choose|j: int| 0 <= j < s0.len() && s0[j] == x;
        if j > 0 {
            assert(surv[j - 1] == x);
        }
    }
    assert forall|x: EntryView| prev.contains(x) implies x.0 == ROOT_ORDER || x.0 < ops.len() by {
        let j = choose|j: int| 0 <= j < prev.len() && prev[j] == x;
        assert(doc_order_valid(ops, id, prev[j].0));
    }
    assert forall|i: int, j: int|
        0 <= i < r.len() && 0 <= j < r.len() && r[i].0 != r[j].0 implies !reaches(
        ops2,
        #[trigger] r[i].0,
        #[trigger] r[j].0,
        at,
    ) by {
        let x = r[i];
        let y = r[j];
        assert(r.contains(x) && r.contains(y));
        if x == e {
            // y survives from prev, so the new entry does not reach it.
            if reaches(ops2, o, y.0, at) {
                let q_i = choose|q_i: int|
                    0 <= q_i < next_orders(ops2, o as int, at).len() && #[trigger] next_orders(ops2, o as int, at)[q_i]
                        < o && reaches(ops2, next_orders(ops2, o as int, at)[q_i], y.0, at);
                let q = parents[q_i];
                assert(q < ops.len() && has_doc_op(ops[q as int].doc_ops@, id));
                lemma_reaches_push(ops, lop, q, y.0, at);
                assert(doc_order_valid(ops, id, q));
                assert(branch_contains(ops, q, orders_of(prev), at));
                let bi = choose|bi: int| 0 <= bi < orders_of(prev).len() && reaches(ops, #[trigger] orders_of(prev)[bi], q, at);
                let b = prev[bi];
                assert(orders_of(prev)[bi] == b.0);
                lemma_reaches_trans(ops, b.0, q, y.0, at);
                let yi = choose|yi: int| 0 <= yi < prev.len() && prev[yi] == y;
                if b.0 != y.0 {
                    assert(!reaches(ops, prev[bi].0, prev[yi].0, at));
                    assert(false);
                } else {
                    lemma_reaches_le(ops, b.0, q, at);
                    lemma_reaches_le(ops, q, y.0, at);
                    assert(q == y.0);
                    assert(parents[q_i] == y.0);
                    assert(parents.contains(y.0));
                    assert(surv.contains(y));
                    assert(false);
                }
            }
            assert(!reaches(ops2, x.0, y.0, at));
        } else if y == e {
            if x.0 != ROOT_ORDER {
                lemma_below_unreachable(ops2, x.0, o, at);
            }
            assert(!reaches(ops2, x.0, y.0, at));
        } else {
            assert(prev.contains(x) && prev.contains(y));
            let xi = choose|xi: int| 0 <= xi < prev.len() && prev[xi] == x;
            let yi = choose|yi: int| 0 <= yi < prev.len() && prev[yi] == y;
            assert(!reaches(ops, prev[xi].0, prev[yi].0, at));
            if x.0 != ROOT_ORDER {
                assert(x.0 < ops.len());
                lemma_reaches_push(ops, lop, x.0, y.0, at);
            }
            assert(!reaches(ops2, x.0, y.0, at));
        }
    }
    assert(s0[0] == e);
    assert(s0.contains(e));
    assert(r.contains(e));
    let ei = choose|ei: int| 0 <= ei < r.len() && r[ei] == e;
    assert(orders_of(r)[ei] == o);
    assert forall|p: u64| doc_order_valid(ops2, id, p) implies #[trigger] branch_contains(ops2, p, orders_of(r), at) by {
        if p == o {
            assert(reaches(ops2, orders_of(r)[ei], p, at));
        } else if p != ROOT_ORDER {
            assert(ops2[p as int] == ops[p as int]);
            assert(doc_order_valid(ops, id, p));
            assert(branch_contains(ops, p, orders_of(prev), at));
            let bi = choose|bi: int| 0 <= bi < orders_of(prev).len() && reaches(ops, #[trigger] orders_of(prev)[bi], p, at);
            let b = prev[bi];
            assert(orders_of(prev)[bi] == b.0);
            assert(prev.contains(b));
            if b.0 == ROOT_ORDER {
                assert(false);
            }
            lemma_reaches_push(ops, lop, b.0, p, at);
            if parents.contains(b.0) {
                let qi = choose|qi: int| 0 <= qi < parents.len() && parents[qi] == b.0;
                assert(next_orders(ops2, o as int, at)[qi] == b.0);
                assert(reaches(ops2, b.0, b.0, at));
                assert(reaches(ops2, o, b.0, at));
                lemma_reaches_trans(ops2, o, b.0, p, at);
                assert(reaches(ops2, orders_of(r)[ei], p, at));
            } else {
                lemma_survivors_keep(prev, parents, bi);
                assert(s0[surv.index_of(b) + 1] == b);
                assert(s0.contains(b));
                assert(r.contains(b));
                let ri = choose|ri: int| 0 <= ri < r.len() && r[ri] == b;
                assert(orders_of(r)[ri] == b.0);
                assert(reaches(ops2, orders_of(r)[ri], p, at));
            }
        }
    }
}

/// Applying a new, well-formed operation that edits no document twice keeps
/// every document an antichain that covers all its edits.
pub proof fn lemma_advance_consistent(
    ops: Seq<LocalOperation>,
    lop: LocalOperation,
    docs: Map<Seq<char>, Seq<EntryView>>,
)
    requires
        lop.order == ops.len(),
        ops.len() + 1 < ROOT_ORDER,
        forall|k: int, j: int|
            0 <= k < lop.doc_ops@.len() && 0 <= j < lop.doc_ops@[k].parents@.len() ==> doc_parent_ok(
                ops.push(lop),
                lop.doc_ops@[k].id@,
                #[trigger] lop.doc_ops@[k].parents@[j],
                ops.len() as int,
            ),
        distinct_doc_ids(ops.push(lop)),
        docs_wf(ops, docs),
        docs_consistent(ops, docs),
    ensures
        docs_consistent(ops.push(lop), forwards_docs(docs, lop.doc_ops@, lop.order)),
{
    let ops2 = ops.push(lop);
    let o = lop.order;
    let d2 = forwards_docs(docs, lop.doc_ops@, o);
    assert(ops2[o as int] == lop);
    assert forall|id: Seq<char>|
        doc_antichain(ops2, id, #[trigger] doc_value(d2, id)) && doc_covers(ops2, id, doc_value(d2, id)) by {
        let prev = doc_value(docs, id);
        assert(doc_antichain(ops, id, doc_value(docs, id)) && doc_covers(ops, id, doc_value(docs, id)));
        lemma_doc_value_valid(ops, docs, id);
        if exists|k: int| 0 <= k < lop.doc_ops@.len() && lop.doc_ops@[k].id@ == id {
            let k = choose|k: int| 0 <= k < lop.doc_ops@.len() && lop.doc_ops@[k].id@ == id;
            assert forall|j: int| 0 <= j < lop.doc_ops@.len() && j != k implies (#[trigger] lop.doc_ops@[j]).id@
                != id by {
                assert(ops2[o as int].doc_ops@[j] == lop.doc_ops@[j]);
                assert(ops2[o as int].doc_ops@[k] == lop.doc_ops@[k]);
            }
            lemma_forwards_docs_one(docs, lop.doc_ops@, o, id, k);
            lemma_doc_op_pos(lop.doc_ops@, id, 0);
            let parents = lop.doc_ops@[k].parents@;
            assert(first_doc_op(lop.doc_ops@, id) == k);
            assert(next_orders(ops2, o as int, Some(id)) == parents);
            assert forall|i: int| 0 <= i < parents.len() implies ((#[trigger] parents[i]) == ROOT_ORDER || (parents[i]
                < ops.len() && has_doc_op(ops[parents[i] as int].doc_ops@, id))) by {
                assert(doc_parent_ok(ops2, lop.doc_ops@[k].id@, lop.doc_ops@[k].parents@[i], ops.len() as int));
                if parents[i] != ROOT_ORDER {
                    assert(ops2[parents[i] as int] == ops[parents[i] as int]);
                }
            }
            lemma_forward_consistent(ops, lop, id, prev, parents, lop.doc_ops@[k].patch@);
        } else {
            assert forall|k: int| 0 <= k < lop.doc_ops@.len() implies (#[trigger] lop.doc_ops@[k]).id@ != id by {}
            lemma_forwards_docs_other(docs, lop.doc_ops@, o, id);
            lemma_doc_op_pos(lop.doc_ops@, id, 0);
            assert forall|i: int, j: int|
                0 <= i < prev.len() && 0 <= j < prev.len() && prev[i].0 != prev[j].0 implies !reaches(
                ops2,
                #[trigger] prev[i].0,
                #[trigger] prev[j].0,
                Some(id),
            ) by {
                assert(!reaches(ops, prev[i].0, prev[j].0, Some(id)));
                assert(doc_order_valid(ops, id, prev[i].0));
                if prev[i].0 != ROOT_ORDER {
                    lemma_reaches_push(ops, lop, prev[i].0, prev[j].0, Some(id));
                }
            }
            assert forall|p: u64| doc_order_valid(ops2, id, p) implies #[trigger] branch_contains(
                ops2,
                p,
                orders_of(prev),
                Some(id),
            ) by {
                if p != ROOT_ORDER {
                    assert(p != o);
                    assert(ops2[p as int] == ops[p as int]);
                    assert(branch_contains(ops, p, orders_of(prev), Some(id)));
                    let bi = choose|bi: int|
                        0 <= bi < orders_of(prev).len() && reaches(ops, #[trigger] orders_of(prev)[bi], p, Some(id));
                    assert(orders_of(prev)[bi] == prev[bi].0);
                    assert(doc_order_valid(ops, id, prev[bi].0));
                    if prev[bi].0 == ROOT_ORDER {
                        assert(false);
                    }
                    lemma_reaches_push(ops, lop, prev[bi].0, p, Some(id));
                }
            }
        }
    }
}

/// Whether every document parent of `dop` is an order of `prev` or a
/// document-scoped ancestor of one: the edit builds on the document as it is.
pub open spec fn forward_parents_ok(ops: Seq<LocalOperation>, prev: Seq<EntryView>, dop: LocalDocOp) -> bool {
    forall|j: int|
        0 <= j < dop.parents@.len() ==> branch_contains(
            ops,
            #[trigger] dop.parents@[j],
            orders_of(prev),
            Some(dop.id@),
        )
}

/// Whether `forward_parents_ok` holds at each doc op of a forward
/// application, against the document as the doc ops before it left it.
pub open spec fn forwards_ok(
    ops: Seq<LocalOperation>,
    docs: Map<Seq<char>, Seq<EntryView>>,
    doc_ops: Seq<LocalDocOp>,
    order: Order,
) -> bool
    decreases doc_ops.len(),
{
    if doc_ops.len() == 0 {
        true
    } else {
        &&& forwards_ok(ops, docs, doc_ops.drop_last(), order)
        &&& forward_parents_ok(
            ops,
            doc_value(forwards_docs(docs, doc_ops.drop_last(), order), doc_ops.last().id@),
            doc_ops.last(),
        )
    }
}

/// A new operation that edits each document at most once, and whose document
/// parents edit the same document, builds on documents that cover all their
/// edits.
pub proof fn lemma_forwards_ok(
    ops: Seq<LocalOperation>,
    lop: LocalOperation,
    docs: Map<Seq<char>, Seq<EntryView>>,
    k: int,
)
    requires
        lop.order == ops.len(),
        ops.len() + 1 < ROOT_ORDER,
        0 <= k <= lop.doc_ops@.len(),
        forall|kk: int, j: int|
            0 <= kk < lop.doc_ops@.len() && 0 <= j < lop.doc_ops@[kk].parents@.len() ==> doc_parent_ok(
                ops.push(lop),
                lop.doc_ops@[kk].id@,
                #[trigger] lop.doc_ops@[kk].parents@[j],
                ops.len() as int,
            ),
        forall|k1: int, k2: int|
            0 <= k1 < lop.doc_ops@.len() && 0 <= k2 < lop.doc_ops@.len() && k1 != k2
                ==> (#[trigger] lop.doc_ops@[k1]).id@ != (#[trigger] lop.doc_ops@[k2]).id@,
        docs_wf(ops, docs),
        docs_consistent(ops, docs),
    ensures
        forwards_ok(ops.push(lop), docs, lop.doc_ops@.subrange(0, k), lop.order),
    decreases k,
{
    let ops2 = ops.push(lop);
    let o = lop.order;
    let s = lop.doc_ops@.subrange(0, k);
    if k > 0 {
        lemma_forwards_ok(ops, lop, docs, k - 1);
        let pre = lop.doc_ops@.subrange(0, k - 1);
        assert(s.drop_last() =~= pre);
        let d = lop.doc_ops@[k - 1];
        assert(s.last() == d);
        let id = d.id@;
        assert forall|q: int| 0 <= q < pre.len() implies (#[trigger] pre[q]).id@ != id by {
            assert(pre[q] == lop.doc_ops@[q]);
        }
        lemma_forwards_docs_other(docs, pre, o, id);
        let prev = doc_value(docs, id);
        lemma_doc_value_valid(ops, docs, id);
        assert(doc_covers(ops, id, doc_value(docs, id)));
        assert forall|j: int| 0 <= j < d.parents@.len() implies branch_contains(
            ops2,
            #[trigger] d.parents@[j],
            orders_of(prev),
            Some(id),
        ) by {
            let p = d.parents@[j];
            assert(doc_parent_ok(ops2, lop.doc_ops@[k - 1].id@, lop.doc_ops@[k - 1].parents@[j], ops.len() as int));
            assert(orders_of(prev).len() > 0);
            if p != ROOT_ORDER {
                assert(ops2[p as int] == ops[p as int]);
                assert(doc_order_valid(ops, id, p));
                assert(branch_contains(ops, p, orders_of(prev), Some(id)));
                let bi = choose|bi: int|
                    0 <= bi < orders_of(prev).len() && reaches(ops, #[trigger] orders_of(prev)[bi], p, Some(id));
                assert(orders_of(prev)[bi] == prev[bi].0);
                assert(doc_order_valid(ops, id, prev[bi].0));
                if prev[bi].0 != ROOT_ORDER {
                    lemma_reaches_push(ops, lop, prev[bi].0, p, Some(id));
                }
            }
        }
    }
}

/// Whether no member of `s` reaches another, and the root, when present, is
/// all that `s` holds.
pub open spec fn is_antichain(ops: Seq<LocalOperation>, s: Seq<Order>, at: Option<Seq<char>>) -> bool {
    &&& forall|i: int, j: int|
        0 <= i < s.len() && 0 <= j < s.len() && s[i] != s[j] ==> !reaches(ops, #[trigger] s[i], #[trigger] s[j], at)
    &&& s.contains(ROOT_ORDER) ==> forall|i: int| 0 <= i < s.len() ==> #[trigger] s[i] == ROOT_ORDER
}

proof fn lemma_first_pos_at(s: Seq<Order>, x: Order, from: int, k: int)
    requires
        0 <= from <= k < s.len(),
        s[k] == x,
        forall|m: int| from <= m < k ==> s[m] != x,
    ensures
        first_pos(s, x, from) == k,
    decreases k - from,
{
    if from < k {
        lemma_first_pos_at(s, x, from + 1, k);
    }
}

/// Putting back the parents that the rest does not contain restores, as a
/// set, the members of `b` that `r` lacks among the parents seen so far.
proof fn lemma_add_uncontained_set(
    ops: Seq<LocalOperation>,
    b: Seq<Order>,
    r: Seq<Order>,
    parents: Seq<Order>,
    j: int,
)
    requires
        0 <= j <= parents.len(),
        is_antichain(ops, b, Option::None),
        is_antichain(ops, parents, Option::None),
        forall|i: int| 0 <= i < parents.len() ==> branch_contains(ops, #[trigger] parents[i], b, Option::None),
        forall|x: Order| #[trigger] r.contains(x) <==> (b.contains(x) && !parents.contains(x)),
    ensures
        forall|x: Order| #[trigger]
            add_uncontained(ops, r, parents.subrange(0, j)).contains(x) <==> (r.contains(x) || (
            parents.subrange(0, j).contains(x) && b.contains(x))),
    decreases j,
{
    let sub = parents.subrange(0, j);
    if j == 0 {
        assert forall|x: Order| !sub.contains(x) by {}
    } else {
        lemma_add_uncontained_set(ops, b, r, parents, j - 1);
        let prev_sub = parents.subrange(0, j - 1);
        assert(sub.drop_last() =~= prev_sub);
        let c = add_uncontained(ops, r, prev_sub);
        let p = parents[j - 1];
        assert(sub.last() == p);
        assert(parents.contains(p));
        assert forall|x: Order| c.contains(x) implies b.contains(x) by {
            if prev_sub.contains(x) {
                let q = choose|q: int| 0 <= q < prev_sub.len() && prev_sub[q] == x;
                assert(parents[q] == x);
            }
        }
        assert forall|x: Order| #[trigger] sub.contains(x) <==> (prev_sub.contains(x) || x == p) by {
            if sub.contains(x) && x != p {
                let q = choose|q: int| 0 <= q < sub.len() && sub[q] == x;
                assert(prev_sub[q] == x);
            }
            if prev_sub.contains(x) {
                let q = choose|q: int| 0 <= q < prev_sub.len() && prev_sub[q] == x;
                assert(sub[q] == x);
            }
            assert(sub[j - 1] == p);
        }
        let contained = branch_contains(ops, p, c, Option::None);
        if c.contains(p) {
            let q = choose|q: int| 0 <= q < c.len() && c[q] == p;
            assert(reaches(ops, c[q], p, Option::None));
            if p != ROOT_ORDER {
                assert(branch_reaches(ops, c, p, Option::None));
            }
            assert(contained);
        } else if b.contains(p) {
            // A member of the branch is contained by no other member.
            if p == ROOT_ORDER {
                assert forall|x: Order| !c.contains(x) by {
                    if c.contains(x) {
                        let q = choose|q: int| 0 <= q < b.len() && b[q] == x;
                        assert(b[q] == ROOT_ORDER);
                    }
                }
                assert(c.len() == 0) by {
                    if c.len() > 0 {
                        assert(c.contains(c[0]));
                    }
                }
            } else {
                assert forall|q: int| 0 <= q < c.len() implies !reaches(ops, #[trigger] c[q], p, Option::None) by {
                    assert(c.contains(c[q]));
                    assert(b.contains(c[q]));
                    let bi = choose|bi: int| 0 <= bi < b.len() && b[bi] == c[q];
                    let pi = choose|pi: int| 0 <= pi < b.len() && b[pi] == p;
                    assert(!reaches(ops, b[bi], b[pi], Option::None));
                }
            }
            assert(!contained);
            let c2 = c.push(p);
            assert forall|x: Order| #[trigger] c2.contains(x) <==> (c.contains(x) || x == p) by {
                if c2.contains(x) && x != p {
                    let q = choose|q: int| 0 <= q < c2.len() && c2[q] == x;
                    assert(c[q] == x);
                }
                if c.contains(x) {
                    let q = choose|q: int| 0 <= q < c.len() && c[q] == x;
                    assert(c2[q] == x);
                }
                assert(c2[c.len() as int] == p);
            }
        } else {
            // A parent outside the branch is contained by a member that is
            // no parent, which stays.
            assert(branch_contains(ops, p, b, Option::None));
            if p == ROOT_ORDER {
                assert(b.len() > 0);
                let x = b[0];
                assert(b.contains(x));
                if parents.contains(x) {
                    let q = choose|q: int| 0 <= q < parents.len() && parents[q] == x;
                    assert(parents[q] == ROOT_ORDER);
                }
                assert(r.contains(x));
                assert(c.contains(x));
                assert(c.len() > 0);
            } else {
                let bi = choose|bi: int| 0 <= bi < b.len() && reaches(ops, #[trigger] b[bi], p, Option::None);
                let w = b[bi];
                assert(b.contains(w));
                if parents.contains(w) {
                    let q = choose|q: int| 0 <= q < parents.len() && parents[q] == w;
                    assert(!reaches(ops, parents[q], parents[j - 1], Option::None));
                }
                assert(r.contains(w));
                assert(c.contains(w));
                let ci = choose|ci: int| 0 <= ci < c.len() && c[ci] == w;
                assert(reaches(ops, c[ci], p, Option::None));
            }
            assert(contained);
        }
    }
}

/// Applying an operation and then retracting it gives back the branch as a
/// set, when the branch and the operation's parents are antichains.
pub proof fn lemma_branch_round_trip(ops: Seq<LocalOperation>, branch: Seq<Order>, o: Order)
    requires
        o < ops.len(),
        !branch_contains(ops, o, branch, Option::None),
        forall|i: int|
            0 <= i < ops[o as int].parents@.len() ==> branch_contains(
                ops,
                #[trigger] ops[o as int].parents@[i],
                branch,
                Option::None,
            ),
        is_antichain(ops, branch, Option::None),
        is_antichain(ops, ops[o as int].parents@, Option::None),
    ensures
        forall|x: Order| #[trigger]
            branch_after_backwards(ops, retain_not_in(branch, ops[o as int].parents@).push(o), o).contains(x)
                <==> branch.contains(x),
{
    let parents = ops[o as int].parents@;
    let r = retain_not_in(branch, parents);
    let f = r.push(o);
    lemma_retain_not_in(branch, parents);
    assert(!branch.contains(o)) by {
        if branch.contains(o) {
            let q = choose|q: int| 0 <= q < branch.len() && branch[q] == o;
            assert(reaches(ops, branch[q], o, Option::None));
        }
    }
    assert forall|m: int| 0 <= m < r.len() implies f[m] != o by {
        assert(f[m] == r[m]);
        assert(r.contains(r[m]));
    }
    lemma_first_pos_at(f, o, 0, r.len() as int);
    assert(f.update(r.len() as int, f.last()).drop_last() =~= r);
    lemma_add_uncontained_set(ops, branch, r, parents, parents.len() as int);
    assert(parents.subrange(0, parents.len() as int) =~= parents);
}

/// A document's state as read: the entries, or the root value when there are
/// none.
pub open spec fn value_or_root(v: Seq<EntryView>) -> Seq<EntryView> {
    if v.len() == 0 {
        seq![(ROOT_ORDER, Option::<Seq<u8>>::None)]
    } else {
        v
    }
}

/// Whether each entry holds the value that its order wrote to document `id`
/// (nothing, for the root).
pub open spec fn entries_hold_patches(ops: Seq<LocalOperation>, id: Seq<char>, vals: Seq<EntryView>) -> bool {
    forall|i: int|
        0 <= i < vals.len() ==> if (#[trigger] vals[i]).0 == ROOT_ORDER {
            vals[i].1 == Option::<Seq<u8>>::None
        } else {
            vals[i].1 == parent_patch(ops, vals[i].0, id)
        }
}

proof fn lemma_without_order_iff(s: Seq<EntryView>, order: Order)
    ensures
        forall|x: EntryView| #[trigger] without_order(s, order).contains(x) <==> (s.contains(x) && x.0 != order),
    decreases s.len(),
{
    if s.len() > 0 {
        let t = s.drop_last();
        lemma_without_order_iff(t, order);
        let rest = without_order(t, order);
        assert forall|x: EntryView| #[trigger] without_order(s, order).contains(x) <==> (s.contains(x) && x.0 != order) by {
            if s.contains(x) && x != s.last() {
                let j = choose|j: int| 0 <= j < s.len() && s[j] == x;
                assert(t[j] == x);
            }
            if t.contains(x) {
                let j = choose|j: int| 0 <= j < t.len() && t[j] == x;
                assert(s[j] == x);
            }
            assert(s[s.len() - 1] == s.last());
            if s.last().0 != order {
                let w = rest.push(s.last());
                assert(w[rest.len() as int] == s.last());
                if rest.contains(x) {
                    let j = choose|j: int| 0 <= j < rest.len() && rest[j] == x;
                    assert(w[j] == x);
                }
                if w.contains(x) && x != s.last() {
                    let j = choose|j: int| 0 <= j < w.len() && w[j] == x;
                    assert(rest[j] == x);
                }
            }
        }
    }
}

proof fn lemma_restored_iff(ops: Seq<LocalOperation>, id: Seq<char>, kept: Seq<Order>, parents: Seq<Order>)
    ensures
        forall|x: EntryView| #[trigger]
            restored(ops, id, kept, parents).contains(x) <==> (parents.contains(x.0) && x.0 != ROOT_ORDER
                && !branch_contains(ops, x.0, kept, Some(id)) && x.1 == parent_patch(ops, x.0, id)),
    decreases parents.len(),
{
    if parents.len() > 0 {
        let pd = parents.drop_last();
        lemma_restored_iff(ops, id, kept, pd);
        let rest = restored(ops, id, kept, pd);
        let p = parents.last();
        assert(parents[parents.len() - 1] == p);
        assert forall|x: EntryView| #[trigger]
            restored(ops, id, kept, parents).contains(x) <==> (parents.contains(x.0) && x.0 != ROOT_ORDER
                && !branch_contains(ops, x.0, kept, Some(id)) && x.1 == parent_patch(ops, x.0, id)) by {
            if parents.contains(x.0) && x.0 != p {
                let j = choose|j: int| 0 <= j < parents.len() && parents[j] == x.0;
                assert(pd[j] == x.0);
            }
            if pd.contains(x.0) {
                let j = choose|j: int| 0 <= j < pd.len() && pd[j] == x.0;
                assert(parents[j] == x.0);
            }
            if !(branch_contains(ops, p, kept, Some(id)) || p == ROOT_ORDER) {
                let e = (p, parent_patch(ops, p, id));
                let w = rest.push(e);
                assert(w[rest.len() as int] == e);
                if rest.contains(x) {
                    let j = choose|j: int| 0 <= j < rest.len() && rest[j] == x;
                    assert(w[j] == x);
                }
                if w.contains(x) && x != e {
                    let j = choose|j: int| 0 <= j < w.len() && w[j] == x;
                    assert(rest[j] == x);
                }
            }
        }
    }
}

/// Applying a doc op and then retracting it gives back the document's
/// entries as a set (the root value when nothing is left), when the entries
/// and the doc op's parents are antichains, the parents are contained in the
/// entries, and each entry holds the value its order wrote.
pub proof fn lemma_doc_round_trip(
    ops: Seq<LocalOperation>,
    prev: Seq<EntryView>,
    dop: LocalDocOp,
    o: Order,
)
    requires
        o < ops.len(),
        ops.len() < ROOT_ORDER,
        prev.len() > 0,
        forall|i: int| 0 <= i < prev.len() ==> (#[trigger] prev[i]).0 == ROOT_ORDER || prev[i].0 < o,
        is_antichain(ops, orders_of(prev), Some(dop.id@)),
        is_antichain(ops, dop.parents@, Some(dop.id@)),
        forall|i: int|
            0 <= i < dop.parents@.len() ==> branch_contains(
                ops,
                #[trigger] dop.parents@[i],
                orders_of(prev),
                Some(dop.id@),
            ),
        entries_hold_patches(ops, dop.id@, prev),
    ensures
        forall|x: EntryView| #[trigger]
            value_or_root(backward_value(ops, forward_value(prev, dop.parents@, o, dop.patch@), dop, o)).contains(x)
                <==> prev.contains(x),
{
    let id = dop.id@;
    let parents = dop.parents@;
    let at = Some(id);
    let e = (o, dop.patch@);
    let surv = survivors(prev, parents);
    let s0 = seq![e] + surv;
    let fwd = forward_value(prev, parents, o, dop.patch@);
    let kept = without_order(fwd, o);
    let kept_orders = orders_of(kept);
    let rs = restored(ops, id, kept_orders, parents);
    let back = backward_value(ops, fwd, dop, o);
    let ov = orders_of(prev);
    lemma_sort_by_order(s0);
    lemma_survivors_members(prev, parents);
    lemma_survivors_exclude(prev, parents);
    lemma_without_order_iff(fwd, o);
    lemma_restored_iff(ops, id, kept_orders, parents);
    let cat = kept + rs;
    lemma_sort_by_order(cat);
    assert(back == sort_by_order(cat));
    assert forall|x: EntryView| #[trigger] s0.contains(x) <==> (x == e || surv.contains(x)) by {
        if s0.contains(x) && x != e {
            let j = choose|j: int| 0 <= j < s0.len() && s0[j] == x;
            assert(surv[j - 1] == x);
        }
        if surv.contains(x) {
            let j = choose|j: int| 0 <= j < surv.len() && surv[j] == x;
            assert(s0[j + 1] == x);
        }
        assert(s0[0] == e);
    }
    // The entries kept are the survivors.
    assert forall|x: EntryView| #[trigger] kept.contains(x) <==> surv.contains(x) by {
        assert(kept.contains(x) <==> (fwd.contains(x) && x.0 != o));
        assert(fwd.contains(x) <==> s0.contains(x));
        if surv.contains(x) {
            assert(prev.contains(x));
            let j = choose|j: int| 0 <= j < prev.len() && prev[j] == x;
            assert(x.0 != o);
        }
    }
    assert forall|x: EntryView| #[trigger] surv.contains(x) <==> (prev.contains(x) && !parents.contains(x.0)) by {
        if prev.contains(x) && !parents.contains(x.0) {
            let j = choose|j: int| 0 <= j < prev.len() && prev[j] == x;
            lemma_survivors_keep(prev, parents, j);
        }
    }
    assert forall|x: EntryView| kept_orders.contains(x.0) && x.0 != ROOT_ORDER && prev.contains(x) ==> !parents.contains(x.0) by {
        if kept_orders.contains(x.0) && x.0 != ROOT_ORDER && prev.contains(x) {
            let j = choose|j: int| 0 <= j < kept_orders.len() && kept_orders[j] == x.0;
            assert(kept.contains(kept[j]));
        }
    }
    // Which parents come back.
    assert forall|p: Order| parents.contains(p) && p != ROOT_ORDER implies (branch_contains(ops, p, kept_orders, at)
        <==> !ov.contains(p)) by {
        let pi = choose|pi: int| 0 <= pi < parents.len() && parents[pi] == p;
        if ov.contains(p) {
            // No survivor reaches an entry of `prev`.
            let vi = choose|vi: int| 0 <= vi < ov.len() && ov[vi] == p;
            assert forall|q: int| 0 <= q < kept_orders.len() implies !reaches(ops, #[trigger] kept_orders[q], p, at) by {
                assert(kept.contains(kept[q]));
                assert(surv.contains(kept[q]));
                assert(prev.contains(kept[q]));
                let w = choose|w: int| 0 <= w < prev.len() && prev[w] == kept[q];
                assert(ov[w] == kept[q].0);
                assert(kept[q].0 != p);
                assert(!reaches(ops, ov[w], ov[vi], at));
            }
        } else {
            assert(branch_contains(ops, p, ov, at));
            let bi = choose|bi: int| 0 <= bi < ov.len() && reaches(ops, #[trigger] ov[bi], p, at);
            let b = prev[bi];
            assert(ov[bi] == b.0);
            assert(prev.contains(b));
            if parents.contains(b.0) {
                let q = choose|q: int| 0 <= q < parents.len() && parents[q] == b.0;
                assert(!reaches(ops, parents[q], parents[pi], at));
            }
            assert(surv.contains(b));
            assert(kept.contains(b));
            let ki = choose|ki: int| 0 <= ki < kept.len() && kept[ki] == b;
            assert(kept_orders[ki] == b.0);
            assert(reaches(ops, kept_orders[ki], p, at));
        }
    }
    assert forall|x: EntryView| #[trigger] cat.contains(x) <==> (prev.contains(x) && x.0 != ROOT_ORDER || (prev.contains(x) && !parents.contains(x.0))) by {
        if cat.contains(x) {
            let j = choose|j: int| 0 <= j < cat.len() && cat[j] == x;
            if j < kept.len() {
                assert(kept[j] == x);
                assert(kept.contains(x));
            } else {
                assert(rs[j - kept.len()] == x);
                assert(rs.contains(x));
                let vi = choose|vi: int| 0 <= vi < ov.len() && ov[vi] == x.0;
                assert(ov[vi] == prev[vi].0);
                assert(entries_hold_patches(ops, id, prev));
                assert(prev[vi].1 == parent_patch(ops, x.0, id));
                assert(prev[vi] == x);
            }
        }
        if prev.contains(x) && (x.0 != ROOT_ORDER || !parents.contains(x.0)) {
            let w = choose|w: int| 0 <= w < prev.len() && prev[w] == x;
            if parents.contains(x.0) {
                assert(ov[w] == x.0);
                assert(ov.contains(x.0));
                assert(!branch_contains(ops, x.0, kept_orders, at));
                assert(rs.contains(x));
                let j = choose|j: int| 0 <= j < rs.len() && rs[j] == x;
                assert(cat[kept.len() + j] == x);
            } else {
                assert(surv.contains(x));
                assert(kept.contains(x));
                let j = choose|j: int| 0 <= j < kept.len() && kept[j] == x;
                assert(cat[j] == x);
            }
        }
    }
    assert forall|x: EntryView| #[trigger] back.contains(x) <==> (prev.contains(x) && x.0 != ROOT_ORDER || (prev.contains(x) && !parents.contains(x.0))) by {
        assert(back.contains(x) <==> cat.contains(x));
    }
    // The root entry.
    if ov.contains(ROOT_ORDER) {
        assert forall|i: int| 0 <= i < prev.len() implies prev[i] == (ROOT_ORDER, Option::<Seq<u8>>::None) by {
            assert(ov[i] == prev[i].0);
        }
    }
    assert forall|x: EntryView| #[trigger] value_or_root(back).contains(x) <==> prev.contains(x) by {
        let rootv = (ROOT_ORDER, Option::<Seq<u8>>::None);
        if back.len() == 0 {
            assert(prev.contains(prev[0]));
            if prev[0].0 != ROOT_ORDER {
                assert(back.contains(prev[0]));
            }
            assert(ov[0] == prev[0].0);
            assert(ov.contains(ROOT_ORDER));
            assert(prev[0] == rootv);
            if x == rootv {
                assert(seq![rootv][0] == x);
            }
            if seq![rootv].contains(x) {
                assert(x == rootv);
            }
            if prev.contains(x) {
                let w = choose|w: int| 0 <= w < prev.len() && prev[w] == x;
            }
        } else {
            if prev.contains(x) && x.0 == ROOT_ORDER && parents.contains(x.0) {
                // The root among the parents leaves the root alone in prev;
                // then nothing is kept and nothing restored.
                let w = choose|w: int| 0 <= w < prev.len() && prev[w] == x;
                assert(ov[w] == ROOT_ORDER);
                assert(ov.contains(ROOT_ORDER));
                let b0 = back[0];
                assert(back.contains(b0));
                assert(prev.contains(b0));
                let w0 = choose|w0: int| 0 <= w0 < prev.len() && prev[w0] == b0;
                assert(prev[w0] == rootv);
                assert(false);
            }
        }
    }
}

/// Whether the orders of `s` strictly increase.
pub open spec fn strictly_sorted(s: Seq<EntryView>) -> bool {
    forall|i: int, j: int| 0 <= i < j < s.len() ==> (#[trigger] s[i]).0 < (#[trigger] s[j]).0
}

/// Whether no two entries of `s` share an order.
pub open spec fn distinct_orders(s: Seq<EntryView>) -> bool {
    forall|i: int, j: int| 0 <= i < s.len() && 0 <= j < s.len() && i != j ==> (#[trigger] s[i]).0 != (#[trigger] s[j]).0
}

/// Two strictly sorted sequences with the same members are equal.
proof fn lemma_strictly_sorted_ext(s: Seq<EntryView>, t: Seq<EntryView>)
    requires
        strictly_sorted(s),
        strictly_sorted(t),
        forall|x: EntryView| #[trigger] s.contains(x) ==> t.contains(x),
        forall|x: EntryView| #[trigger] t.contains(x) ==> s.contains(x),
    ensures
        s == t,
    decreases s.len(),
{
    if s.len() == 0 {
        if t.len() > 0 {
            assert(t.contains(t[0]));
        }
        assert(t.len() == 0);
        assert(s =~= t);
    } else {
        assert(s.contains(s[0]));
        assert(t.contains(s[0]));
        assert(t.len() > 0);
        assert(t.contains(t[0]));
        assert(s.contains(t[0]));
        let k = choose|k: int| 0 <= k < t.len() && t[k] == s[0];
        let m = choose|m: int| 0 <= m < s.len() && s[m] == t[0];
        if k > 0 {
            assert(t[0].0 < t[k].0);
            if m > 0 {
                assert(s[0].0 < s[m].0);
            }
        }
        assert(k == 0);
        let s1 = s.drop_first();
        let t1 = t.drop_first();
        assert forall|x: EntryView| #[trigger] s1.contains(x) <==> #[trigger] t1.contains(x) by {
            if s1.contains(x) {
                let i = choose|i: int| 0 <= i < s1.len() && s1[i] == x;
                assert(s[i + 1] == x);
                assert(s.contains(x));
                let j = choose|j: int| 0 <= j < t.len() && t[j] == x;
                assert(s[0].0 < s[i + 1].0);
                assert(j != 0);
                assert(t1[j - 1] == x);
            }
            if t1.contains(x) {
                let i = choose|i: int| 0 <= i < t1.len() && t1[i] == x;
                assert(t[i + 1] == x);
                assert(t.contains(x));
                let j = choose|j: int| 0 <= j < s.len() && s[j] == x;
                assert(t[0].0 < t[i + 1].0);
                assert(j != 0);
                assert(s1[j - 1] == x);
            }
        }
        lemma_strictly_sorted_ext(s1, t1);
        assert(s =~= seq![s[0]] + s1);
        assert(t =~= seq![t[0]] + t1);
    }
}

/// Inserting an entry of a new order keeps a strictly sorted sequence so.
proof fn lemma_insert_strict(s: Seq<EntryView>, e: EntryView)
    requires
        strictly_sorted(s),
        forall|i: int| 0 <= i < s.len() ==> (#[trigger] s[i]).0 != e.0,
    ensures
        strictly_sorted(insert_by_order(s, e)),
    decreases s.len(),
{
    let r = insert_by_order(s, e);
    if s.len() > 0 && e.0 >= s[0].0 {
        let t = s.drop_first();
        assert forall|i: int| 0 <= i < t.len() implies (#[trigger] t[i]).0 != e.0 by {
            assert(t[i] == s[i + 1]);
        }
        lemma_insert_strict(t, e);
        lemma_insert_by_order(t, e);
        let rt = insert_by_order(t, e);
        assert(r == seq![s[0]] + rt);
        assert forall|i: int, j: int| 0 <= i < j < r.len() implies (#[trigger] r[i]).0 < (#[trigger] r[j]).0 by {
            if i > 0 {
                assert(r[i] == rt[i - 1] && r[j] == rt[j - 1]);
            } else {
                assert(r[j] == rt[j - 1]);
                assert(rt.contains(rt[j - 1]));
                if rt[j - 1] != e {
                    let m = choose|m: int| 0 <= m < t.len() && t[m] == rt[j - 1];
                    assert(s[m + 1] == t[m]);
                    assert(s[0].0 < s[m + 1].0);
                } else {
                    assert(s[0].0 != e.0);
                }
            }
        }
    } else if s.len() > 0 {
        assert forall|i: int, j: int| 0 <= i < j < r.len() implies (#[trigger] r[i]).0 < (#[trigger] r[j]).0 by {
            if i > 0 {
                assert(r[i] == s[i - 1] && r[j] == s[j - 1]);
            } else {
                assert(r[j] == s[j - 1]);
                if j > 1 {
                    assert(s[0].0 < s[j - 1].0);
                }
            }
        }
    }
}

/// Sorting entries of distinct orders gives a strictly sorted sequence.
proof fn lemma_sort_strict(s: Seq<EntryView>)
    requires
        distinct_orders(s),
    ensures
        strictly_sorted(sort_by_order(s)),
    decreases s.len(),
{
    if s.len() > 0 {
        let t = s.drop_last();
        assert forall|i: int, j: int| 0 <= i < t.len() && 0 <= j < t.len() && i != j implies (#[trigger] t[i]).0
            != (#[trigger] t[j]).0 by {
            assert(t[i] == s[i] && t[j] == s[j]);
        }
        lemma_sort_strict(t);
        lemma_sort_by_order(t);
        let st = sort_by_order(t);
        assert forall|i: int| 0 <= i < st.len() implies (#[trigger] st[i]).0 != s.last().0 by {
            assert(st.contains(st[i]));
            let m = choose|m: int| 0 <= m < t.len() && t[m] == st[i];
            assert(s[m] == t[m]);
            assert(s[s.len() - 1] == s.last());
        }
        lemma_insert_strict(st, s.last());
    }
}

proof fn lemma_survivors_strict(prev: Seq<EntryView>, parents: Seq<Order>)
    requires
        strictly_sorted(prev),
    ensures
        strictly_sorted(survivors(prev, parents)),
    decreases prev.len(),
{
    if prev.len() > 0 {
        let t = prev.drop_last();
        assert forall|i: int, j: int| 0 <= i < j < t.len() implies (#[trigger] t[i]).0 < (#[trigger] t[j]).0 by {
            assert(t[i] == prev[i] && t[j] == prev[j]);
        }
        lemma_survivors_strict(t, parents);
        lemma_survivors_members(t, parents);
        let rest = survivors(t, parents);
        if !parents.contains(prev.last().0) {
            let w = rest.push(prev.last());
            assert forall|i: int, j: int| 0 <= i < j < w.len() implies (#[trigger] w[i]).0 < (#[trigger] w[j]).0 by {
                if j == w.len() - 1 {
                    assert(w[i] == rest[i]);
                    assert(rest.contains(rest[i]));
                    let m = choose|m: int| 0 <= m < t.len() && t[m] == rest[i];
                    assert(prev[m] == t[m]);
                    assert(prev[prev.len() - 1] == prev.last());
                } else {
                    assert(w[i] == rest[i] && w[j] == rest[j]);
                }
            }
        }
    }
}

proof fn lemma_without_order_strict(s: Seq<EntryView>, order: Order)
    requires
        strictly_sorted(s),
    ensures
        strictly_sorted(without_order(s, order)),
    decreases s.len(),
{
    if s.len() > 0 {
        let t = s.drop_last();
        assert forall|i: int, j: int| 0 <= i < j < t.len() implies (#[trigger] t[i]).0 < (#[trigger] t[j]).0 by {
            assert(t[i] == s[i] && t[j] == s[j]);
        }
        lemma_without_order_strict(t, order);
        lemma_without_order_members(t, order);
        let rest = without_order(t, order);
        if s.last().0 != order {
            let w = rest.push(s.last());
            assert forall|i: int, j: int| 0 <= i < j < w.len() implies (#[trigger] w[i]).0 < (#[trigger] w[j]).0 by {
                if j == w.len() - 1 {
                    assert(w[i] == rest[i]);
                    assert(rest.contains(rest[i]));
                    let m = choose|m: int| 0 <= m < t.len() && t[m] == rest[i];
                    assert(s[m] == t[m]);
                    assert(s[s.len() - 1] == s.last());
                } else {
                    assert(w[i] == rest[i] && w[j] == rest[j]);
                }
            }
        }
    }
}

proof fn lemma_restored_distinct(ops: Seq<LocalOperation>, id: Seq<char>, kept: Seq<Order>, parents: Seq<Order>)
    requires
        parents.no_duplicates(),
    ensures
        distinct_orders(restored(ops, id, kept, parents)),
    decreases parents.len(),
{
    if parents.len() > 0 {
        let pd = parents.drop_last();
        assert(pd.no_duplicates()) by {
            assert forall|i: int, j: int| 0 <= i < pd.len() && 0 <= j < pd.len() && i != j implies pd[i] != pd[j] by {
                assert(pd[i] == parents[i] && pd[j] == parents[j]);
            }
        }
        lemma_restored_distinct(ops, id, kept, pd);
        lemma_restored_iff(ops, id, kept, pd);
        let rest = restored(ops, id, kept, pd);
        let p = parents.last();
        if !(branch_contains(ops, p, kept, Some(id)) || p == ROOT_ORDER) {
            let w = rest.push((p, parent_patch(ops, p, id)));
            assert forall|i: int, j: int| 0 <= i < w.len() && 0 <= j < w.len() && i != j implies (#[trigger] w[i]).0
                != (#[trigger] w[j]).0 by {
                if i == w.len() - 1 || j == w.len() - 1 {
                    let q = if i == w.len() - 1 { j } else { i };
                    assert(w[q] == rest[q]);
                    assert(rest.contains(rest[q]));
                    if pd.contains(p) {
                        let m = choose|m: int| 0 <= m < pd.len() && pd[m] == p;
                        assert(parents[m] == parents[parents.len() - 1]);
                    }
                } else {
                    assert(w[i] == rest[i] && w[j] == rest[j]);
                }
            }
        }
    }
}

/// With strictly sorted entries and parents without repeats, applying a doc
/// op and then retracting it gives back exactly the entries it started from.
pub proof fn lemma_doc_round_trip_exact(
    ops: Seq<LocalOperation>,
    prev: Seq<EntryView>,
    dop: LocalDocOp,
    o: Order,
)
    requires
        o < ops.len(),
        ops.len() < ROOT_ORDER,
        doc_round_trip_ok(ops, prev, dop, o),
        strictly_sorted(prev),
        dop.parents@.no_duplicates(),
    ensures
        value_or_root(backward_value(ops, forward_value(prev, dop.parents@, o, dop.patch@), dop, o)) == prev,
{
    let id = dop.id@;
    let parents = dop.parents@;
    let e = (o, dop.patch@);
    lemma_doc_round_trip(ops, prev, dop, o);
    let surv = survivors(prev, parents);
    let s0 = seq![e] + surv;
    lemma_survivors_strict(prev, parents);
    lemma_survivors_members(prev, parents);
    assert forall|i: int, j: int| 0 <= i < s0.len() && 0 <= j < s0.len() && i != j implies (#[trigger] s0[i]).0
        != (#[trigger] s0[j]).0 by {
        if i == 0 || j == 0 {
            let q = if i == 0 { j } else { i };
            assert(s0[q] == surv[q - 1]);
            assert(surv.contains(surv[q - 1]));
            let m = choose|m: int| 0 <= m < prev.len() && prev[m] == surv[q - 1];
        } else {
            assert(s0[i] == surv[i - 1] && s0[j] == surv[j - 1]);
            if i < j {
                assert(surv[i - 1].0 < surv[j - 1].0);
            } else {
                assert(surv[j - 1].0 < surv[i - 1].0);
            }
        }
    }
    lemma_sort_strict(s0);
    let fwd = forward_value(prev, parents, o, dop.patch@);
    let kept = without_order(fwd, o);
    lemma_without_order_strict(fwd, o);
    let ko = orders_of(kept);
    let rs = restored(ops, id, ko, parents);
    lemma_restored_distinct(ops, id, ko, parents);
    lemma_restored_iff(ops, id, ko, parents);
    let cat = kept + rs;
    assert forall|i: int, j: int| 0 <= i < cat.len() && 0 <= j < cat.len() && i != j implies (#[trigger] cat[i]).0
        != (#[trigger] cat[j]).0 by {
        if i < kept.len() && j < kept.len() {
            if i < j {
                assert(kept[i].0 < kept[j].0);
            } else {
                assert(kept[j].0 < kept[i].0);
            }
        } else if i >= kept.len() && j >= kept.len() {
            assert(cat[i] == rs[i - kept.len()] && cat[j] == rs[j - kept.len()]);
        } else {
            let (a, b) = if i < kept.len() { (i, j) } else { (j, i) };
            assert(cat[b] == rs[b - kept.len()]);
            assert(rs.contains(rs[b - kept.len()]));
            let x = rs[b - kept.len()];
            assert(ko[a] == kept[a].0);
            if x.0 == kept[a].0 {
                assert(reaches(ops, ko[a], x.0, Some(id)));
                assert(branch_contains(ops, x.0, ko, Some(id)));
            }
        }
    }
    lemma_sort_strict(cat);
    let back = backward_value(ops, fwd, dop, o);
    assert(back == sort_by_order(cat));
    lemma_sort_by_order(cat);
    if back.len() == 0 {
        let rootv = (ROOT_ORDER, Option::<Seq<u8>>::None);
        assert(value_or_root(back) =~= seq![rootv]);
        assert(seq![rootv][0] == rootv);
        assert forall|x: EntryView| #[trigger] prev.contains(x) implies x == rootv by {
            assert(value_or_root(back).contains(x));
        }
        assert(prev.contains(prev[0]));
        if prev.len() > 1 {
            assert(prev.contains(prev[1]));
            assert(prev[0].0 < prev[1].0);
        }
        assert(prev =~= seq![rootv]);
    } else {
        assert(value_or_root(back) == back);
        assert forall|x: EntryView| #[trigger] back.contains(x) <==> #[trigger] prev.contains(x) by {
            assert(value_or_root(back).contains(x) <==> prev.contains(x));
        }
        lemma_strictly_sorted_ext(back, prev);
    }
}

/// Retraction leaves a document that no doc op edits as it was.
proof fn lemma_backwards_docs_other(
    ops: Seq<LocalOperation>,
    docs: Map<Seq<char>, Seq<EntryView>>,
    doc_ops: Seq<LocalDocOp>,
    order: Order,
    id: Seq<char>,
)
    requires
        forall|k: int| 0 <= k < doc_ops.len() ==> (#[trigger] doc_ops[k]).id@ != id,
    ensures
        doc_value(backwards_docs(ops, docs, doc_ops, order), id) == doc_value(docs, id),
    decreases doc_ops.len(),
{
    if doc_ops.len() > 0 {
        let pre = doc_ops.drop_last();
        assert forall|k: int| 0 <= k < pre.len() implies (#[trigger] pre[k]).id@ != id by {
            assert(pre[k] == doc_ops[k]);
        }
        lemma_backwards_docs_other(ops, docs, pre, order, id);
        assert(doc_ops.last() == doc_ops[doc_ops.len() - 1]);
    }
}

/// Retraction gives a document edited by exactly one doc op the backward
/// value of that edit, as read.
proof fn lemma_backwards_docs_one(
    ops: Seq<LocalOperation>,
    docs: Map<Seq<char>, Seq<EntryView>>,
    doc_ops: Seq<LocalDocOp>,
    order: Order,
    id: Seq<char>,
    k: int,
)
    requires
        0 <= k < doc_ops.len(),
        doc_ops[k].id@ == id,
        forall|j: int| 0 <= j < doc_ops.len() && j != k ==> (#[trigger] doc_ops[j]).id@ != id,
    ensures
        doc_value(backwards_docs(ops, docs, doc_ops, order), id) == value_or_root(
            backward_value(ops, doc_value(docs, id), doc_ops[k], order),
        ),
    decreases doc_ops.len(),
{
    let pre = doc_ops.drop_last();
    if k < doc_ops.len() - 1 {
        assert forall|j: int| 0 <= j < pre.len() && j != k implies (#[trigger] pre[j]).id@ != id by {
            assert(pre[j] == doc_ops[j]);
        }
        assert(pre[k] == doc_ops[k]);
        lemma_backwards_docs_one(ops, docs, pre, order, id, k);
        assert(doc_ops.last() == doc_ops[doc_ops.len() - 1]);
    } else {
        assert forall|j: int| 0 <= j < pre.len() implies (#[trigger] pre[j]).id@ != id by {
            assert(pre[j] == doc_ops[j]);
        }
        lemma_backwards_docs_other(ops, docs, pre, order, id);
        assert(doc_ops.last() == doc_ops[k]);
    }
}

/// Whether a doc op may be applied and retracted on `prev` and give it back:
/// the conditions of `lemma_doc_round_trip`.
pub open spec fn doc_round_trip_ok(
    ops: Seq<LocalOperation>,
    prev: Seq<EntryView>,
    dop: LocalDocOp,
    o: Order,
) -> bool {
    &&& prev.len() > 0
    &&& forall|i: int| 0 <= i < prev.len() ==> (#[trigger] prev[i]).0 == ROOT_ORDER || prev[i].0 < o
    &&& is_antichain(ops, orders_of(prev), Some(dop.id@))
    &&& is_antichain(ops, dop.parents@, Some(dop.id@))
    &&& forall|i: int|
        0 <= i < dop.parents@.len() ==> branch_contains(
            ops,
            #[trigger] dop.parents@[i],
            orders_of(prev),
            Some(dop.id@),
        )
    &&& entries_hold_patches(ops, dop.id@, prev)
}

/// Applying operation `o` to a view and then retracting it gives back the
/// branch and every document's state, each as a set, when `o` edits no
/// document twice, the branch and `o`'s parents are antichains that meet the
/// conditions of forward application, and each edited document meets those
/// of `lemma_doc_round_trip`.
pub proof fn lemma_view_round_trip(
    ops: Seq<LocalOperation>,
    branch: Seq<Order>,
    docs: Map<Seq<char>, Seq<EntryView>>,
    o: Order,
)
    requires
        o < ops.len(),
        ops.len() < ROOT_ORDER,
        !branch_contains(ops, o, branch, Option::None),
        forall|i: int|
            0 <= i < ops[o as int].parents@.len() ==> branch_contains(
                ops,
                #[trigger] ops[o as int].parents@[i],
                branch,
                Option::None,
            ),
        is_antichain(ops, branch, Option::None),
        is_antichain(ops, ops[o as int].parents@, Option::None),
        forall|k1: int, k2: int|
            0 <= k1 < ops[o as int].doc_ops@.len() && 0 <= k2 < ops[o as int].doc_ops@.len() && k1 != k2
                ==> (#[trigger] ops[o as int].doc_ops@[k1]).id@ != (#[trigger] ops[o as int].doc_ops@[k2]).id@,
        forall|k: int|
            0 <= k < ops[o as int].doc_ops@.len() ==> doc_round_trip_ok(
                ops,
                doc_value(docs, (#[trigger] ops[o as int].doc_ops@[k]).id@),
                ops[o as int].doc_ops@[k],
                o,
            ),
    ensures
        forall|x: Order| #[trigger]
            branch_after_backwards(ops, retain_not_in(branch, ops[o as int].parents@).push(o), o).contains(x)
                <==> branch.contains(x),
        forall|id: Seq<char>, x: EntryView| #[trigger]
            doc_value(
                backwards_docs(ops, forwards_docs(docs, ops[o as int].doc_ops@, o), ops[o as int].doc_ops@, o),
                id,
            ).contains(x) <==> #[trigger] doc_value(docs, id).contains(x),
{
    lemma_branch_round_trip(ops, branch, o);
    let doc_ops = ops[o as int].doc_ops@;
    let fwd = forwards_docs(docs, doc_ops, o);
    assert forall|id: Seq<char>, x: EntryView| #[trigger]
        doc_value(backwards_docs(ops, fwd, doc_ops, o), id).contains(x) <==> #[trigger] doc_value(docs, id).contains(x) by {
        if exists|k: int| 0 <= k < doc_ops.len() && doc_ops[k].id@ == id {
            let k = choose|k: int| 0 <= k < doc_ops.len() && doc_ops[k].id@ == id;
            assert forall|j: int| 0 <= j < doc_ops.len() && j != k implies (#[trigger] doc_ops[j]).id@ != id by {}
            lemma_forwards_docs_one(docs, doc_ops, o, id, k);
            lemma_backwards_docs_one(ops, fwd, doc_ops, o, id, k);
            assert(doc_round_trip_ok(ops, doc_value(docs, doc_ops[k].id@), doc_ops[k], o));
            lemma_doc_round_trip(ops, doc_value(docs, id), doc_ops[k], o);
        } else {
            assert forall|k: int| 0 <= k < doc_ops.len() implies (#[trigger] doc_ops[k]).id@ != id by {}
            lemma_forwards_docs_other(docs, doc_ops, o, id);
            lemma_backwards_docs_other(ops, fwd, doc_ops, o, id);
        }
    }
}

/// When, moreover, every edited document is strictly sorted by order and no
/// edit repeats a parent, applying operation `o` and then retracting it
/// gives back every document's state exactly.
pub proof fn lemma_view_round_trip_exact(
    ops: Seq<LocalOperation>,
    branch: Seq<Order>,
    docs: Map<Seq<char>, Seq<EntryView>>,
    o: Order,
)
    requires
        o < ops.len(),
        ops.len() < ROOT_ORDER,
        forall|k1: int, k2: int|
            0 <= k1 < ops[o as int].doc_ops@.len() && 0 <= k2 < ops[o as int].doc_ops@.len() && k1 != k2
                ==> (#[trigger] ops[o as int].doc_ops@[k1]).id@ != (#[trigger] ops[o as int].doc_ops@[k2]).id@,
        forall|k: int|
            0 <= k < ops[o as int].doc_ops@.len() ==> doc_round_trip_ok(
                ops,
                doc_value(docs, (#[trigger] ops[o as int].doc_ops@[k]).id@),
                ops[o as int].doc_ops@[k],
                o,
            ) && strictly_sorted(doc_value(docs, ops[o as int].doc_ops@[k].id@))
                && ops[o as int].doc_ops@[k].parents@.no_duplicates(),
    ensures
        forall|id: Seq<char>|
            #[trigger] doc_value(
                backwards_docs(ops, forwards_docs(docs, ops[o as int].doc_ops@, o), ops[o as int].doc_ops@, o),
                id,
            ) == doc_value(docs, id),
{
    let doc_ops = ops[o as int].doc_ops@;
    let fwd = forwards_docs(docs, doc_ops, o);
    assert forall|id: Seq<char>|
        #[trigger] doc_value(backwards_docs(ops, fwd, doc_ops, o), id) == doc_value(docs, id) by {
        if exists|k: int| 0 <= k < doc_ops.len() && doc_ops[k].id@ == id {
            let k = choose|k: int| 0 <= k < doc_ops.len() && doc_ops[k].id@ == id;
            assert forall|j: int| 0 <= j < doc_ops.len() && j != k implies (#[trigger] doc_ops[j]).id@ != id by {}
            lemma_forwards_docs_one(docs, doc_ops, o, id, k);
            lemma_backwards_docs_one(ops, fwd, doc_ops, o, id, k);
            assert(doc_round_trip_ok(ops, doc_value(docs, doc_ops[k].id@), doc_ops[k], o));
            lemma_doc_round_trip_exact(ops, doc_value(docs, id), doc_ops[k], o);
        } else {
            assert forall|k: int| 0 <= k < doc_ops.len() implies (#[trigger] doc_ops[k]).id@ != id by {}
            lemma_forwards_docs_other(docs, doc_ops, o, id);
            lemma_backwards_docs_other(ops, fwd, doc_ops, o, id);
        }
    }
}

/// Survivors exclude every entry whose order is a parent.
proof fn lemma_survivors_exclude(prev: Seq<EntryView>, parents: Seq<Order>)
    ensures
        forall|x: EntryView| #[trigger] survivors(prev, parents).contains(x) ==> !parents.contains(x.0),
    decreases prev.len(),
{
    if prev.len() > 0 {
        lemma_survivors_exclude(prev.drop_last(), parents);
        let rest = survivors(prev.drop_last(), parents);
        assert forall|x: EntryView| #[trigger] survivors(prev, parents).contains(x) implies !parents.contains(x.0) by {
            if parents.contains(prev.last().0) {
                assert(rest.contains(x));
            } else if x != prev.last() {
                let j = choose|j: int| 0 <= j < rest.len() + 1 && rest.push(prev.last())[j] == x;
                assert(rest[j] == x);
                assert(rest.contains(x));
            }
        }
    }
}

/// An entry whose order is not a parent survives.
proof fn lemma_survivors_keep(prev: Seq<EntryView>, parents: Seq<Order>, i: int)
    requires
        0 <= i < prev.len(),
        !parents.contains(prev[i].0),
    ensures
        survivors(prev, parents).contains(prev[i]),
        0 <= survivors(prev, parents).index_of(prev[i]) < survivors(prev, parents).len(),
        survivors(prev, parents)[survivors(prev, parents).index_of(prev[i])] == prev[i],
    decreases prev.len(),
{
    let rest = survivors(prev.drop_last(), parents);
    if i < prev.len() - 1 {
        assert(prev.drop_last()[i] == prev[i]);
        lemma_survivors_keep(prev.drop_last(), parents, i);
        if !parents.contains(prev.last().0) {
            let j = rest.index_of(prev[i]);
            assert(rest.push(prev.last())[j] == prev[i]);
        }
    } else {
        assert(rest.push(prev.last())[rest.len() as int] == prev[i]);
    }
}

/// Each stored document holds a non-empty list of valid entries.
pub open spec fn docs_wf(ops: Seq<LocalOperation>, docs: Map<Seq<char>, Seq<EntryView>>) -> bool {
    forall|id: Seq<char>| #[trigger]
        docs.contains_key(id) ==> docs[id].len() > 0 && entries_valid(ops, id, docs[id])
}

/// The state of any document in well-formed documents is valid.
pub proof fn lemma_doc_value_valid(ops: Seq<LocalOperation>, docs: Map<Seq<char>, Seq<EntryView>>, id: Seq<char>)
    requires
        docs_wf(ops, docs),
    ensures
        entries_valid(ops, id, doc_value(docs, id)),
        doc_value(docs, id).len() > 0,
        branch_valid(ops, orders_of(doc_value(docs, id)), Some(id)),
{
    let v = doc_value(docs, id);
    assert forall|i: int| 0 <= i < orders_of(v).len() implies member_valid(ops, Some(id), #[trigger] orders_of(v)[i]) by {
        assert(orders_of(v)[i] == v[i].0);
    }
}

/// A forward edit gives a sorted, non-empty list of valid entries.
proof fn lemma_forward_value_valid(
    ops: Seq<LocalOperation>,
    id: Seq<char>,
    prev: Seq<EntryView>,
    parents: Seq<Order>,
    order: Order,
    patch: Option<Seq<u8>>,
)
    requires
        entries_valid(ops, id, prev),
        doc_order_valid(ops, id, order),
    ensures
        entries_valid(ops, id, forward_value(prev, parents, order, patch)),
        forward_value(prev, parents, order, patch).len() > 0,
        sorted_by_order(forward_value(prev, parents, order, patch)),
{
    let e = (order, patch);
    let s0 = seq![e] + survivors(prev, parents);
    let r = forward_value(prev, parents, order, patch);
    lemma_sort_by_order(s0);
    lemma_survivors_members(prev, parents);
    assert forall|i: int| 0 <= i < r.len() implies doc_order_valid(ops, id, #[trigger] r[i].0) by {
        assert(r.contains(r[i]));
        assert(s0.contains(r[i]));
        let j = choose|j: int| 0 <= j < s0.len() && s0[j] == r[i];
        if j > 0 {
            assert(survivors(prev, parents)[j - 1] == r[i]);
            assert(survivors(prev, parents).contains(r[i]));
            let m = choose|m: int| 0 <= m < prev.len() && prev[m] == r[i];
        }
    }
    assert(s0[0] == e);
    assert(s0.contains(e));
}

/// A document and its stored multi-value state.
#[derive(Debug)]
struct DocEntry {
    id: DocId,
    vals: Vec<DbValueSingle>,
}

/// The view: the branch of operations applied so far, and the multi-value
/// state of each document that holds more than the implicit root value.
#[derive(Debug)]
pub struct ViewDb {
    branch: Vec<Order>,
    docs: Vec<DocEntry>,
}

impl Default for ViewDb {
    fn default() -> (r: ViewDb)
        ensures
            r.spec_branch() == seq![ROOT_ORDER],
            r.spec_docs() == Map::<Seq<char>, Seq<EntryView>>::empty(),
            r.docs_unique(),
    {
        ViewDb::new()
    }
}

/// Whether the documents of `docs` are distinct.
spec fn ids_unique(docs: Seq<DocEntry>) -> bool {
    forall|i: int, j: int| 0 <= i < docs.len() && 0 <= j < docs.len() && i != j ==> docs[i].id@ != docs[j].id@
}

spec fn docs_map(docs: Seq<DocEntry>) -> Map<Seq<char>, Seq<EntryView>> {
    Map::new(
        |k: Seq<char>| exists|i: int| 0 <= i < docs.len() && docs[i].id@ == k,
        |k: Seq<char>| entries_view(docs[choose|i: int| 0 <= i < docs.len() && docs[i].id@ == k].vals@),
    )
}

proof fn lemma_docs_map_dom(docs: Seq<DocEntry>)
    ensures
        forall|k: Seq<char>| #[trigger]
            docs_map(docs).contains_key(k) <==> exists|j: int| 0 <= j < docs.len() && docs[j].id@ == k,
{
    assert forall|k: Seq<char>| #[trigger]
        docs_map(docs).contains_key(k) <==> exists|j: int| 0 <= j < docs.len() && docs[j].id@ == k by {
        assert(docs_map(docs).dom() == Set::new(
            |k: Seq<char>| exists|i: int| 0 <= i < docs.len() && docs[i].id@ == k,
        ));
    }
}

/// In a list of distinct documents, the one at `i` gives the map's value.
proof fn lemma_docs_map_at(docs: Seq<DocEntry>, i: int)
    requires
        ids_unique(docs),
        0 <= i < docs.len(),
    ensures
        docs_map(docs).contains_key(docs[i].id@),
        docs_map(docs)[docs[i].id@] == entries_view(docs[i].vals@),
{
    let k = docs[i].id@;
    lemma_docs_map_dom(docs);
    assert(exists|j: int| 0 <= j < docs.len() && docs[j].id@ == k);
    let j = choose|j: int| 0 <= j < docs.len() && docs[j].id@ == k;
    assert(i == j);
}

impl ViewDb {
    pub closed spec fn spec_branch(&self) -> Seq<Order> {
        self.branch@
    }

    pub closed spec fn spec_docs(&self) -> Map<Seq<char>, Seq<EntryView>> {
        docs_map(self.docs@)
    }

    pub closed spec fn docs_unique(&self) -> bool {
        ids_unique(self.docs@)
    }

    /// The view is well formed against the operations `ops`: its branch holds
    /// valid orders, and each stored document holds a non-empty list of
    /// entries written by the root or by operations that edit it.
    pub open spec fn wf(&self, ops: Seq<LocalOperation>) -> bool {
        &&& self.docs_unique()
        &&& branch_valid(ops, self.spec_branch(), Option::None)
        &&& docs_wf(ops, self.spec_docs())
    }

    pub fn new() -> (r: ViewDb)
        ensures
            r.spec_branch() == seq![ROOT_ORDER],
            r.spec_docs() == Map::<Seq<char>, Seq<EntryView>>::empty(),
            r.docs_unique(),
    {
        let r = ViewDb { branch: vec![ROOT_ORDER], docs: Vec::new() };
        assert(r.spec_branch() =~= seq![ROOT_ORDER]);
        assert(r.spec_docs() =~= Map::<Seq<char>, Seq<EntryView>>::empty());
        r
    }

    /// The current branch: the tips of what the view has applied.
    pub fn branch(&self) -> (r: &Vec<Order>)
        ensures
            r@ == self.spec_branch(),
    {
        &self.branch
    }

    fn find_doc(&self, id: &DocId) -> (r: Option<usize>)
        requires
            self.docs_unique(),
        ensures
            match r {
                Some(i) => i < self.docs@.len() && self.docs@[i as int].id@ == id@,
                Option::None => !self.spec_docs().contains_key(id@),
            },
    {
        let mut i: usize = 0;
        while i < self.docs.len()
            invariant
                i <= self.docs@.len(),
                forall|j: int| 0 <= j < i ==> self.docs@[j].id@ != id@,
            decreases self.docs@.len() - i,
        {
            if self.docs[i].id == *id {
                return Some(i);
            }
            i = i + 1;
        }
        Option::None
    }

    /// The multi-value state of document `key`: what is stored, or the root
    /// value `[(ROOT_ORDER, None)]` for a document that holds nothing.
    pub fn get_cloned(&self, key: &DocId) -> (r: Vec<DbValueSingle>)
        requires
            self.docs_unique(),
        ensures
            entries_view(r@) == doc_value(self.spec_docs(), key@),
    {
        match self.find_doc(key) {
            Some(i) => {
                proof {
                    lemma_docs_map_at(self.docs@, i as int);
                }
                duplicate_entries(&self.docs[i].vals)
            },
            Option::None => {
                let r = vec![DbValueSingle { order: ROOT_ORDER, value: DocValue::Empty }];
                assert(entries_view(r@) =~= seq![(ROOT_ORDER, Option::<Seq<u8>>::None)]);
                r
            },
        }
    }

    /// Applies stored operation `order` to the view: the branch advances past
    /// its parents, and each of its doc ops, in turn, replaces the entries it
    /// supersedes with its own.
    pub fn apply_forwards(&mut self, ops: &OpDb, order: Order)
        requires
            ops.wf(),
            old(self).wf(ops.spec_ops()),
            order < ops.spec_ops().len(),
            !branch_contains(ops.spec_ops(), order, old(self).spec_branch(), Option::None),
            forall|i: int|
                0 <= i < ops.spec_ops()[order as int].parents@.len() ==> branch_contains(
                    ops.spec_ops(),
                    #[trigger] ops.spec_ops()[order as int].parents@[i],
                    old(self).spec_branch(),
                    Option::None,
                ),
            forwards_ok(ops.spec_ops(), old(self).spec_docs(), ops.spec_ops()[order as int].doc_ops@, order),
        ensures
            final(self).wf(ops.spec_ops()),
            final(self).spec_branch() == retain_not_in(
                old(self).spec_branch(),
                ops.spec_ops()[order as int].parents@,
            ).push(order),
            final(self).spec_docs() == forwards_docs(
                old(self).spec_docs(),
                ops.spec_ops()[order as int].doc_ops@,
                order,
            ),
    {
        let ghost opsv = ops.spec_ops();
        let op = ops.operation_by_order(order);
        proof {
            assert(op_wf(opsv, ops.agents().len(), order as int));
        }
        let new_branch = ops.advance_branch_by_op(self.branch.as_slice(), op);
        self.branch = new_branch;
        proof {
            lemma_retain_not_in(old(self).spec_branch(), op.parents@);
            let b = self.spec_branch();
            assert forall|i: int| 0 <= i < b.len() implies member_valid(opsv, Option::None, #[trigger] b[i]) by {
                if i < b.len() - 1 {
                    let rb = retain_not_in(old(self).spec_branch(), op.parents@);
                    assert(rb[i] == b[i]);
                    assert(rb.contains(b[i]));
                    let j = choose|j: int| 0 <= j < old(self).spec_branch().len() && old(self).spec_branch()[j] == b[i];
                }
            }
        }
        let ghost docs0 = self.spec_docs();
        let mut k: usize = 0;
        while k < op.doc_ops.len()
            invariant
                ops.wf(),
                opsv == ops.spec_ops(),
                order < opsv.len(),
                *op == opsv[order as int],
                self.wf(opsv),
                k <= op.doc_ops@.len(),
                self.spec_docs() == forwards_docs(docs0, op.doc_ops@.subrange(0, k as int), order),
                self.spec_branch() == retain_not_in(old(self).spec_branch(), op.parents@).push(order),
            decreases op.doc_ops@.len() - k,
        {
            let doc_op = &op.doc_ops[k];
            let prev_vals = self.get_cloned(&doc_op.id);
            let ghost prev = entries_view(prev_vals@);
            let mut new_vals: Vec<DbValueSingle> = vec![DbValueSingle { order, value: doc_op.patch.duplicate() }];
            let ghost e = (order, doc_op.patch@);
            let mut i: usize = 0;
            while i < prev_vals.len()
                invariant
                    i <= prev_vals@.len(),
                    prev == entries_view(prev_vals@),
                    entries_view(new_vals@) == seq![e] + survivors(prev.subrange(0, i as int), doc_op.parents@),
                decreases prev_vals@.len() - i,
            {
                let ghost nv0 = entries_view(new_vals@);
                let ghost sv0 = survivors(prev.subrange(0, i as int), doc_op.parents@);
                if !contains_order(doc_op.parents.as_slice(), prev_vals[i].order) {
                    new_vals.push(prev_vals[i].duplicate());
                    assert(entries_view(new_vals@) =~= nv0.push(prev[i as int]));
                    assert((seq![e] + sv0).push(prev[i as int]) =~= seq![e] + sv0.push(prev[i as int]));
                }
                proof {
                    let s1 = prev.subrange(0, i + 1);
                    assert(s1.drop_last() =~= prev.subrange(0, i as int));
                    assert(s1.last() == prev_vals@[i as int]@);
                }
                assert(entries_view(new_vals@) =~= seq![e] + survivors(prev.subrange(0, i + 1), doc_op.parents@));
                i = i + 1;
            }
            assert(prev.subrange(0, i as int) =~= prev);
            let sorted = sort_entries(&new_vals);
            proof {
                lemma_doc_value_valid(opsv, self.spec_docs(), doc_op.id@);
                lemma_doc_op_pos(op.doc_ops@, doc_op.id@, 0);
                assert(op.doc_ops@[k as int].id@ == doc_op.id@);
                lemma_forward_value_valid(opsv, doc_op.id@, prev, doc_op.parents@, order, doc_op.patch@);
            }
            self.set_doc(&doc_op.id, sorted);
            proof {
                let sub = op.doc_ops@.subrange(0, k + 1);
                assert(sub.drop_last() =~= op.doc_ops@.subrange(0, k as int));
                assert(sub.last() == *doc_op);
            }
            k = k + 1;
        }
        assert(op.doc_ops@.subrange(0, k as int) =~= op.doc_ops@);
    }

    /// Retracts operation `order`, which must be in the branch: it leaves the
    /// branch and its parents come back, and each of its doc ops, in turn,
    /// gives way to the entries it superseded, sorted by order.
    pub fn apply_backwards(&mut self, ops: &OpDb, order: Order)
        requires
            ops.wf(),
            old(self).wf(ops.spec_ops()),
            order < ops.spec_ops().len(),
            old(self).spec_branch().contains(order),
            backwards_ok(ops.spec_ops(), old(self).spec_docs(), ops.spec_ops()[order as int].doc_ops@, order),
        ensures
            final(self).wf(ops.spec_ops()),
            final(self).spec_branch() == branch_after_backwards(ops.spec_ops(), old(self).spec_branch(), order),
            docs_sorted(old(self).spec_docs()) ==> docs_sorted(final(self).spec_docs()),
            final(self).spec_docs() == backwards_docs(
                ops.spec_ops(),
                old(self).spec_docs(),
                ops.spec_ops()[order as int].doc_ops@,
                order,
            ),
    {
        let ghost opsv = ops.spec_ops();
        let op = ops.operation_by_order(order);
        proof {
            assert(op_wf(opsv, ops.agents().len(), order as int));
        }
        let mut idx: usize = 0;
        while idx < self.branch.len() && self.branch[idx] != order
            invariant
                idx <= self.branch@.len(),
                self.branch@ == old(self).spec_branch(),
                forall|j: int| 0 <= j < idx ==> self.branch@[j] != order,
                first_pos(self.branch@, order, 0) == first_pos(self.branch@, order, idx as int),
            decreases self.branch@.len() - idx,
        {
            idx = idx + 1;
        }
        proof {
            lemma_first_pos(self.branch@, order, 0);
        }
        self.branch.swap_remove(idx);
        let ghost trimmed = self.branch@;
        let mut j: usize = 0;
        while j < op.parents.len()
            invariant
                ops.wf(),
                opsv == ops.spec_ops(),
                *op == opsv[order as int],
                op_wf(opsv, ops.agents().len(), order as int),
                j <= op.parents@.len(),
                order < opsv.len(),
                self.branch@ == add_uncontained(opsv, trimmed, op.parents@.subrange(0, j as int)),
                branch_valid(opsv, self.branch@, Option::None),
                self.docs@ == old(self).docs@,
            decreases op.parents@.len() - j,
        {
            let p = op.parents[j];
            if !ops.branch_contains_version(p, self.branch.as_slice()) {
                let ghost b0 = self.branch@;
                self.branch.push(p);
                proof {
                    assert(order_below(op.parents@[j as int], order as int));
                    assert forall|q: int| 0 <= q < self.branch@.len() implies member_valid(
                        opsv,
                        Option::None,
                        #[trigger] self.branch@[q],
                    ) by {
                        if q < b0.len() {
                            assert(self.branch@[q] == b0[q]);
                        }
                    }
                }
            }
            proof {
                let sub = op.parents@.subrange(0, j + 1);
                assert(sub.drop_last() =~= op.parents@.subrange(0, j as int));
                assert(sub.last() == p);
            }
            j = j + 1;
        }
        assert(op.parents@.subrange(0, j as int) =~= op.parents@);
        let ghost docs0 = self.spec_docs();
        let mut k: usize = 0;
        while k < op.doc_ops.len()
            invariant
                ops.wf(),
                opsv == ops.spec_ops(),
                order < opsv.len(),
                *op == opsv[order as int],
                op_wf(opsv, ops.agents().len(), order as int),
                self.wf(opsv),
                k <= op.doc_ops@.len(),
                backwards_ok(opsv, docs0, op.doc_ops@, order),
                docs_sorted(old(self).spec_docs()) ==> docs_sorted(self.spec_docs()),
                self.spec_docs() == backwards_docs(opsv, docs0, op.doc_ops@.subrange(0, k as int), order),
                self.spec_branch() == branch_after_backwards(opsv, old(self).spec_branch(), order),
            decreases op.doc_ops@.len() - k,
        {
            let doc_op = &op.doc_ops[k];
            let ghost id = doc_op.id@;
            proof {
                lemma_backwards_ok_prefix(opsv, docs0, op.doc_ops@, order, k + 1);
                let sub = op.doc_ops@.subrange(0, k + 1);
                assert(sub.drop_last() =~= op.doc_ops@.subrange(0, k as int));
                assert(sub.last() == *doc_op);
                lemma_doc_value_valid(opsv, self.spec_docs(), id);
            }
            let prev_vals = self.get_cloned(&doc_op.id);
            let ghost prev = entries_view(prev_vals@);
            let mut new_vals: Vec<DbValueSingle> = Vec::new();
            let mut i: usize = 0;
            while i < prev_vals.len()
                invariant
                    i <= prev_vals@.len(),
                    prev == entries_view(prev_vals@),
                    entries_view(new_vals@) == without_order(prev.subrange(0, i as int), order),
                decreases prev_vals@.len() - i,
            {
                let ghost nv0 = entries_view(new_vals@);
                if prev_vals[i].order != order {
                    new_vals.push(prev_vals[i].duplicate());
                    assert(entries_view(new_vals@) =~= nv0.push(prev[i as int]));
                }
                proof {
                    let s1 = prev.subrange(0, i + 1);
                    assert(s1.drop_last() =~= prev.subrange(0, i as int));
                    assert(s1.last() == prev_vals@[i as int]@);
                }
                i = i + 1;
            }
            assert(prev.subrange(0, i as int) =~= prev);
            let ghost kept = entries_view(new_vals@);
            let mut doc_branch: Vec<Order> = Vec::new();
            let mut m: usize = 0;
            while m < new_vals.len()
                invariant
                    m <= new_vals@.len(),
                    doc_branch@.len() == m,
                    forall|q: int| 0 <= q < m ==> #[trigger] doc_branch@[q] == new_vals@[q].order,
                decreases new_vals@.len() - m,
            {
                doc_branch.push(new_vals[m].order);
                m = m + 1;
            }
            proof {
                assert(doc_branch@ =~= orders_of(kept));
                lemma_without_order_members(prev, order);
                assert forall|q: int| 0 <= q < doc_branch@.len() implies member_valid(
                    opsv,
                    Some(id),
                    #[trigger] doc_branch@[q],
                ) by {
                    assert(kept[q].0 == doc_branch@[q]);
                    assert(kept.contains(kept[q]));
                    let w = choose|w: int| 0 <= w < prev.len() && prev[w] == kept[q];
                    assert(doc_order_valid(opsv, id, prev[w].0));
                }
            }
            let mut j: usize = 0;
            while j < doc_op.parents.len()
                invariant
                    ops.wf(),
                    opsv == ops.spec_ops(),
                    *op == opsv[order as int],
                    op_wf(opsv, ops.agents().len(), order as int),
                    k < op.doc_ops@.len(),
                    *doc_op == op.doc_ops@[k as int],
                    order < opsv.len(),
                    id == doc_op.id@,
                    j <= doc_op.parents@.len(),
                    doc_branch@ == orders_of(kept),
                    branch_valid(opsv, doc_branch@, Some(id)),
                    backward_ok(prev, *doc_op, order),
                    kept == without_order(prev, order),
                    entries_view(new_vals@) == kept + restored(opsv, id, doc_branch@, doc_op.parents@.subrange(0, j as int)),
                decreases doc_op.parents@.len() - j,
            {
                let p = doc_op.parents[j];
                proof {
                    assert(doc_parent_ok(opsv, op.doc_ops@[k as int].id@, op.doc_ops@[k as int].parents@[j as int], order as int));
                }
                let ghost nv0 = entries_view(new_vals@);
                if !ops.branch_contains_doc_version(p, doc_branch.as_slice(), &doc_op.id) {
                    if p == ROOT_ORDER {
                        proof {
                            assert(doc_branch@.len() == 0);
                            assert forall|q: int| 0 <= q < doc_op.parents@.subrange(0, j as int).len() implies #[trigger] doc_op.parents@.subrange(0, j as int)[q] == ROOT_ORDER by {
                                assert(doc_op.parents@.subrange(0, j as int)[q] == doc_op.parents@[q]);
                            }
                            lemma_restored_roots(opsv, id, doc_branch@, doc_op.parents@.subrange(0, j as int));
                            assert(new_vals@.len() == 0);
                        }
                    } else {
                        let parent_op = ops.operation_by_order(p);
                        let pd = doc_op_entry(parent_op.doc_ops.as_slice(), &doc_op.id).unwrap();
                        new_vals.push(DbValueSingle { order: p, value: pd.patch.duplicate() });
                        assert(entries_view(new_vals@) =~= nv0.push((p, parent_patch(opsv, p, id))));
                    }
                }
                proof {
                    let sub = doc_op.parents@.subrange(0, j + 1);
                    assert(sub.drop_last() =~= doc_op.parents@.subrange(0, j as int));
                    assert(sub.last() == p);
                    let r0 = restored(opsv, id, doc_branch@, sub.drop_last());
                    assert((kept + r0).push((p, parent_patch(opsv, p, id))) =~= kept + r0.push((p, parent_patch(opsv, p, id))));
                }
                j = j + 1;
            }
            assert(doc_op.parents@.subrange(0, j as int) =~= doc_op.parents@);
            proof {
                assert forall|q: int| 0 <= q < doc_op.parents@.len() implies doc_order_valid(opsv, id, #[trigger] doc_op.parents@[q]) by {
                    assert(doc_parent_ok(opsv, op.doc_ops@[k as int].id@, op.doc_ops@[k as int].parents@[q], order as int));
                }
                lemma_restored_valid(opsv, id, doc_branch@, doc_op.parents@);
                let v = entries_view(new_vals@);
                let rs = restored(opsv, id, doc_branch@, doc_op.parents@);
                assert forall|q: int| 0 <= q < v.len() implies doc_order_valid(opsv, id, #[trigger] v[q].0) by {
                    if q < kept.len() {
                        assert(v[q] == kept[q]);
                        assert(kept.contains(kept[q]));
                        let w = choose|w: int| 0 <= w < prev.len() && prev[w] == kept[q];
                        assert(doc_order_valid(opsv, id, prev[w].0));
                    } else {
                        assert(v[q] == rs[q - kept.len()]);
                    }
                }
            }
            let sorted = sort_entries(&new_vals);
            proof {
                let v = entries_view(new_vals@);
                lemma_sort_by_order(v);
                assert forall|q: int| 0 <= q < entries_view(sorted@).len() implies doc_order_valid(
                    opsv,
                    id,
                    #[trigger] entries_view(sorted@)[q].0,
                ) by {
                    let x = entries_view(sorted@)[q];
                    assert(sort_by_order(v).contains(x));
                    let w = choose|w: int| 0 <= w < v.len() && v[w] == x;
                }
            }
            if sorted.len() == 0 {
                self.remove_doc(&doc_op.id);
            } else {
                self.set_doc(&doc_op.id, sorted);
            }
            k = k + 1;
        }
        assert(op.doc_ops@.subrange(0, k as int) =~= op.doc_ops@);
    }

    /// The local version of each member of the branch, in branch order.
    pub fn branch_as_versions(&self, ops: &OpDb) -> (r: Vec<LocalVersion>)
        requires
            self.wf(ops.spec_ops()),
        ensures
            r@.len() == self.spec_branch().len(),
            forall|i: int| 0 <= i < r@.len() ==> #[trigger] r@[i] == order_version(ops.spec_ops(), self.spec_branch()[i]),
    {
        let mut r: Vec<LocalVersion> = Vec::new();
        let mut i: usize = 0;
        while i < self.branch.len()
            invariant
                self.wf(ops.spec_ops()),
                i <= self.branch@.len(),
                r@.len() == i,
                forall|j: int| 0 <= j < i ==> #[trigger] r@[j] == order_version(ops.spec_ops(), self.branch@[j]),
            decreases self.branch@.len() - i,
        {
            assert(member_valid(ops.spec_ops(), Option::None, self.branch@[i as int]));
            r.push(ops.order_to_version(self.branch[i]));
            i = i + 1;
        }
        r
    }

    /// Stores `vals` as the state of document `id`.
    fn set_doc(&mut self, id: &DocId, vals: Vec<DbValueSingle>)
        requires
            old(self).docs_unique(),
        ensures
            final(self).docs_unique(),
            final(self).spec_docs() == old(self).spec_docs().insert(id@, entries_view(vals@)),
            final(self).spec_branch() == old(self).spec_branch(),
    {
        let ghost d0 = self.docs@;
        let ghost ev = entries_view(vals@);
        match self.find_doc(id) {
            Some(i) => {
                self.docs.set(i, DocEntry { id: id.clone(), vals });
                proof {
                    let d1 = self.docs@;
                    assert(d1 == d0.update(i as int, d1[i as int]));
                    assert(d1[i as int].id@ == id@);
                    assert forall|j: int| 0 <= j < d1.len() implies #[trigger] d1[j].id@ == d0[j].id@ by {}
                    assert(ids_unique(d1));
                    lemma_docs_map_dom(d0);
                    lemma_docs_map_dom(d1);
                    lemma_docs_map_at(d1, i as int);
                    assert(docs_map(d1) =~= docs_map(d0).insert(id@, ev)) by {
                        assert forall|k: Seq<char>| k != id@ implies (docs_map(d1).contains_key(k)
                            == docs_map(d0).contains_key(k)) && (docs_map(d0).contains_key(k)
                            ==> docs_map(d1)[k] == docs_map(d0)[k]) by {
                            if docs_map(d0).contains_key(k) {
                                let j = choose|j: int| 0 <= j < d0.len() && d0[j].id@ == k;
                                lemma_docs_map_at(d0, j);
                                lemma_docs_map_at(d1, j);
                            }
                            if docs_map(d1).contains_key(k) {
                                let j = choose|j: int| 0 <= j < d1.len() && d1[j].id@ == k;
                                assert(d0[j].id@ == k);
                            }
                        }
                        assert(docs_map(d1)[id@] == ev);
                        assert forall|k: Seq<char>| #[trigger] docs_map(d1).contains_key(k) == docs_map(
                            d0,
                        ).insert(id@, ev).contains_key(k) by {
                            if k != id@ {
                                if docs_map(d0).contains_key(k) {
                                    let j = choose|j: int| 0 <= j < d0.len() && d0[j].id@ == k;
                                    lemma_docs_map_at(d1, j);
                                }
                                if docs_map(d1).contains_key(k) {
                                    let j = choose|j: int| 0 <= j < d1.len() && d1[j].id@ == k;
                                    assert(d0[j].id@ == k);
                                    lemma_docs_map_at(d0, j);
                                }
                            }
                        }
                    }
                }
            },
            Option::None => {
                self.docs.push(DocEntry { id: id.clone(), vals });
                proof {
                    let d1 = self.docs@;
                    assert(d1 == d0.push(d1[d0.len() as int]));
                    assert(d1[d0.len() as int].id@ == id@);
                    assert forall|j: int| 0 <= j < d0.len() implies d0[j].id@ != id@ by {
                        if d0[j].id@ == id@ {
                            assert(docs_map(d0).contains_key(id@));
                        }
                    }
                    assert(ids_unique(d1));
                    lemma_docs_map_dom(d0);
                    lemma_docs_map_dom(d1);
                    lemma_docs_map_at(d1, d0.len() as int);
                    assert(docs_map(d1) =~= docs_map(d0).insert(id@, ev)) by {
                        assert forall|k: Seq<char>| k != id@ implies (docs_map(d1).contains_key(k)
                            == docs_map(d0).contains_key(k)) && (docs_map(d0).contains_key(k)
                            ==> docs_map(d1)[k] == docs_map(d0)[k]) by {
                            if docs_map(d0).contains_key(k) {
                                let j = choose|j: int| 0 <= j < d0.len() && d0[j].id@ == k;
                                lemma_docs_map_at(d0, j);
                                lemma_docs_map_at(d1, j);
                            }
                            if docs_map(d1).contains_key(k) {
                                let j = choose|j: int| 0 <= j < d1.len() && d1[j].id@ == k;
                                assert(d0[j].id@ == k);
                            }
                        }
                        assert(docs_map(d1)[id@] == ev);
                        assert forall|k: Seq<char>| #[trigger] docs_map(d1).contains_key(k) == docs_map(
                            d0,
                        ).insert(id@, ev).contains_key(k) by {
                            if k != id@ {
                                if docs_map(d0).contains_key(k) {
                                    let j = choose|j: int| 0 <= j < d0.len() && d0[j].id@ == k;
                                    lemma_docs_map_at(d1, j);
                                }
                                if docs_map(d1).contains_key(k) {
                                    let j = choose|j: int| 0 <= j < d1.len() && d1[j].id@ == k;
                                    assert(d0[j].id@ == k);
                                    lemma_docs_map_at(d0, j);
                                }
                            }
                        }
                    }
                }
            },
        }
    }

    /// Drops the stored state of document `id`, which then holds the
    /// implicit root value.
    fn remove_doc(&mut self, id: &DocId)
        requires
            old(self).docs_unique(),
        ensures
            final(self).docs_unique(),
            final(self).spec_docs() == old(self).spec_docs().remove(id@),
            final(self).spec_branch() == old(self).spec_branch(),
    {
        let ghost d0 = self.docs@;
        match self.find_doc(id) {
            Some(i) => {
                self.docs.remove(i);
                proof {
                    let d1 = self.docs@;
                    assert(d1 == d0.remove(i as int));
                    assert(ids_unique(d1));
                    lemma_docs_map_at(d0, i as int);
                    lemma_docs_map_dom(d0);
                    lemma_docs_map_dom(d1);
                    assert forall|k: Seq<char>| #[trigger] docs_map(d1).contains_key(k) == docs_map(
                        d0,
                    ).remove(id@).contains_key(k) by {
                        if docs_map(d0).contains_key(k) && k != id@ {
                            let j = choose|j: int| 0 <= j < d0.len() && d0[j].id@ == k;
                            let j1 = if j < i { j } else { j - 1 };
                            assert(d1[j1] == d0[j]);
                            lemma_docs_map_at(d1, j1);
                        }
                        if docs_map(d1).contains_key(k) {
                            let j = choose|j: int| 0 <= j < d1.len() && d1[j].id@ == k;
                            let j0 = if j < i { j } else { j + 1 };
                            assert(d0[j0] == d1[j]);
                            lemma_docs_map_at(d0, j0);
                        }
                    }
                    assert forall|k: Seq<char>| #[trigger] docs_map(d1).contains_key(k) implies docs_map(d1)[k]
                        == docs_map(d0)[k] by {
                        let j = choose|j: int| 0 <= j < d1.len() && d1[j].id@ == k;
                        let j0 = if j < i { j } else { j + 1 };
                        assert(d0[j0] == d1[j]);
                        lemma_docs_map_at(d0, j0);
                        lemma_docs_map_at(d1, j);
                    }
                    assert(docs_map(d1) =~= docs_map(d0).remove(id@));
                }
            },
            Option::None => {
                proof {
                    lemma_docs_map_dom(d0);
                    assert(docs_map(d0) =~= docs_map(d0).remove(id@));
                }
            },
        }
    }
}

} // verus!
