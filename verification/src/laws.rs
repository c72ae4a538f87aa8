//! Laws of the store's map model: what any sequence of operations leaves
//! behind, how draining partitions the map, and how removal behaves when
//! repeated.

use vstd::prelude::*;
use crate::model::{Record, due_part, pending_part};

verus! {

/// A single add or remove step against the store's map model.
pub ghost enum StoreOp {
    Add(Record),
    Remove(i32),
}

/// One operation applied to a map, exactly as the store's `add` and `remove`
/// contracts state their effect.
pub open spec fn apply_op(m: Map<i32, Record>, op: StoreOp) -> Map<i32, Record> {
    match op {
        StoreOp::Add(r) => m.insert(r.id, r),
        StoreOp::Remove(id) => m.remove(id),
    }
}

/// A sequence of operations applied in order.
pub open spec fn apply_ops(m: Map<i32, Record>, ops: Seq<StoreOp>) -> Map<i32, Record>
    decreases ops.len(),
{
    if ops.len() == 0 {
        m
    } else {
        apply_op(apply_ops(m, ops.drop_last()), ops.last())
    }
}

/// The ids that survive `ops` starting from the id set `ids`: an added id
/// enters, a removed id leaves, the later operation winning.
pub open spec fn surviving_ids(ids: Set<i32>, ops: Seq<StoreOp>) -> Set<i32>
    decreases ops.len(),
{
    if ops.len() == 0 {
        ids
    } else {
        match ops.last() {
            StoreOp::Add(r) => surviving_ids(ids, ops.drop_last()).insert(r.id),
            StoreOp::Remove(id) => surviving_ids(ids, ops.drop_last()).remove(id),
        }
    }
}

/// Law: after any sequence of adds and removes, the set of stored ids is
/// exactly the initial ids plus the added ids minus the removed ids, the later
/// operation winning. The `ensures` clauses of the store's `add` and `remove`
/// equate each call with one `apply_op` step, so this holds of every real call
/// sequence; a drain is covered separately by `lemma_due_pending_partition`,
/// whose pending part names the ids it keeps.
pub proof fn lemma_ops_surviving_ids(m: Map<i32, Record>, ops: Seq<StoreOp>)
    ensures
        apply_ops(m, ops).dom() == surviving_ids(m.dom(), ops),
    decreases ops.len(),
{
    if ops.len() == 0 {
        assert(apply_ops(m, ops).dom() =~= surviving_ids(m.dom(), ops));
    } else {
        lemma_ops_surviving_ids(m, ops.drop_last());
        match ops.last() {
            StoreOp::Add(r) => {
                assert(apply_ops(m, ops).dom() =~= surviving_ids(m.dom(), ops));
            },
            StoreOp::Remove(id) => {
                assert(apply_ops(m, ops).dom() =~= surviving_ids(m.dom(), ops));
            },
        }
    }
}

/// Law: draining splits the store exactly. At any time the due part and the
/// pending part of the map are disjoint, and together they are the whole map;
/// a record scheduled exactly at `now` counts as due.
pub proof fn lemma_due_pending_partition(m: Map<i32, Record>, now: i64)
    ensures
        due_part(m, now).dom().disjoint(pending_part(m, now).dom()),
        due_part(m, now).union_prefer_right(pending_part(m, now)) == m,
        forall|k: i32| #[trigger] m.contains_key(k)
            <==> (due_part(m, now).contains_key(k) || pending_part(m, now).contains_key(k)),
{
    assert(due_part(m, now).union_prefer_right(pending_part(m, now)) =~= m);
}

/// Law: removal yields a record at most once. After one removal the id is
/// absent, and a second removal of the same id changes nothing.
pub proof fn lemma_remove_idempotent(m: Map<i32, Record>, id: i32)
    ensures
        !m.remove(id).contains_key(id),
        m.remove(id).remove(id) == m.remove(id),
{
    assert(m.remove(id).remove(id) =~= m.remove(id));
}

/// Law: a record scheduled exactly at the current time is due, not pending.
pub proof fn lemma_boundary_is_due(m: Map<i32, Record>, now: i64, k: i32)
    requires
        m.contains_key(k),
        m[k].schedule_at == now,
    ensures
        due_part(m, now).contains_key(k),
        !pending_part(m, now).contains_key(k),
{
}

} // verus!
