use vstd::prelude::*;

use crate::dataframe::{frame_expired, FrameModel};
use crate::keys::lemma_key_lt_irreflexive;
use crate::server::get_reply;
use crate::shard::{ascending, lookup, remove_if_expired_spec, EntrySeq};
use crate::value::Resp;

verus! {

/// A write to a store, as `set` and `remove` perform it.
pub enum StoreOp {
    Put(Seq<u8>, FrameModel),
    Delete(Seq<u8>),
}

pub open spec fn op_key(op: StoreOp) -> Seq<u8> {
    match op {
        StoreOp::Put(k, _) => k,
        StoreOp::Delete(k) => k,
    }
}

/// The contents after one write: `set` inserts, `remove` removes.
pub open spec fn apply_op(m: Map<Seq<u8>, FrameModel>, op: StoreOp) -> Map<Seq<u8>, FrameModel> {
    match op {
        StoreOp::Put(k, v) => m.insert(k, v),
        StoreOp::Delete(k) => m.remove(k),
    }
}

/// The contents after a run of writes, first to last.
pub open spec fn apply_ops(m: Map<Seq<u8>, FrameModel>, ops: Seq<StoreOp>) -> Map<Seq<u8>, FrameModel>
    decreases ops.len(),
{
    if ops.len() == 0 {
        m
    } else {
        apply_ops(apply_op(m, ops[0]), ops.drop_first())
    }
}

pub open spec fn untouched(ops: Seq<StoreOp>, k: Seq<u8>) -> bool {
    forall|i: int| 0 <= i < ops.len() ==> op_key(#[trigger] ops[i]) != k
}

/// Writes to other keys leave what `get` finds under `k` as it was.
pub proof fn lemma_other_writes_keep(m: Map<Seq<u8>, FrameModel>, ops: Seq<StoreOp>, k: Seq<u8>)
    requires
        untouched(ops, k),
    ensures
        lookup(apply_ops(m, ops), k) == lookup(m, k),
    decreases ops.len(),
{
    if ops.len() > 0 {
        assert(op_key(ops[0]) != k);
        assert(untouched(ops.drop_first(), k)) by {
            assert forall|i: int| 0 <= i < ops.drop_first().len() implies op_key(#[trigger] ops.drop_first()[i]) != k by {
                assert(ops.drop_first()[i] == ops[i + 1]);
            }
        }
        lemma_other_writes_keep(apply_op(m, ops[0]), ops.drop_first(), k);
    }
}

/// After `set(k, v)`, `get(k)` finds `v` through any writes that follow to
/// other keys, that is until the next `set` or `remove` of `k`.
pub proof fn get_after_set(m: Map<Seq<u8>, FrameModel>, k: Seq<u8>, v: FrameModel, later: Seq<StoreOp>)
    requires
        untouched(later, k),
    ensures
        lookup(apply_ops(m.insert(k, v), later), k) == Some(v),
{
    lemma_other_writes_keep(m.insert(k, v), later, k);
}

/// After `remove(k)`, `get(k)` finds nothing through any writes that follow to
/// other keys, that is until `k` is set again.
pub proof fn get_after_remove(m: Map<Seq<u8>, FrameModel>, k: Seq<u8>, later: Seq<StoreOp>)
    requires
        untouched(later, k),
    ensures
        lookup(apply_ops(m.remove(k), later), k) == None::<FrameModel>,
{
    lemma_other_writes_keep(m.remove(k), later, k);
}

/// In strictly ascending entries no key occurs twice: a walk over them
/// visits each key once.
pub proof fn ascending_keys_unique(s: EntrySeq)
    requires
        ascending(s),
    ensures
        forall|i: int, j: int| 0 <= i < s.len() && 0 <= j < s.len() && i != j ==> #[trigger] s[i].0 != #[trigger] s[j].0,
{
    assert forall|i: int, j: int| 0 <= i < s.len() && 0 <= j < s.len() && i != j implies #[trigger] s[i].0 != #[trigger] s[j].0 by {
        lemma_key_lt_irreflexive(s[i].0);
        if i < j {
            assert(crate::keys::key_lt(s[i].0, s[j].0));
        } else {
            assert(crate::keys::key_lt(s[j].0, s[i].0));
        }
    }
}

/// Sets of pairwise distinct keys, in whatever order they interleave, leave
/// every one of those keys found with the value set for it.
pub proof fn disjoint_sets_all_found(m: Map<Seq<u8>, FrameModel>, ops: Seq<StoreOp>)
    requires
        forall|i: int| 0 <= i < ops.len() ==> (#[trigger] ops[i]) is Put,
        forall|i: int, j: int| 0 <= i < j < ops.len() ==> op_key(#[trigger] ops[i]) != op_key(#[trigger] ops[j]),
    ensures
        forall|i: int| 0 <= i < ops.len() ==> lookup(apply_ops(m, ops), op_key(#[trigger] ops[i])) == Some(ops[i]->Put_1),
    decreases ops.len(),
{
    if ops.len() > 0 {
        let rest = ops.drop_first();
        assert forall|i: int, j: int| 0 <= i < j < rest.len() implies op_key(#[trigger] rest[i]) != op_key(#[trigger] rest[j]) by {
            assert(rest[i] == ops[i + 1] && rest[j] == ops[j + 1]);
        }
        assert forall|i: int| 0 <= i < rest.len() implies (#[trigger] rest[i]) is Put by {
            assert(rest[i] == ops[i + 1]);
        }
        disjoint_sets_all_found(apply_op(m, ops[0]), rest);
        assert forall|i: int| 0 <= i < ops.len() implies lookup(apply_ops(m, ops), op_key(#[trigger] ops[i])) == Some(ops[i]->Put_1) by {
            if i == 0 {
                assert(untouched(rest, op_key(ops[0]))) by {
                    assert forall|j: int| 0 <= j < rest.len() implies op_key(#[trigger] rest[j]) != op_key(ops[0]) by {
                        assert(rest[j] == ops[j + 1]);
                    }
                }
                assert(ops[0] is Put);
                get_after_set(m, op_key(ops[0]), ops[0]->Put_1, rest);
            } else {
                assert(rest[i - 1] == ops[i]);
            }
        }
    }
}

/// Removes of keys, in whatever order they interleave, leave every removed
/// key absent.
pub proof fn removes_all_absent(m: Map<Seq<u8>, FrameModel>, ops: Seq<StoreOp>)
    requires
        forall|i: int| 0 <= i < ops.len() ==> (#[trigger] ops[i]) is Delete,
    ensures
        forall|i: int| 0 <= i < ops.len() ==> lookup(apply_ops(m, ops), op_key(#[trigger] ops[i])) == None::<FrameModel>,
    decreases ops.len(),
{
    if ops.len() > 0 {
        let rest = ops.drop_first();
        assert forall|i: int| 0 <= i < rest.len() implies (#[trigger] rest[i]) is Delete by {
            assert(rest[i] == ops[i + 1]);
        }
        removes_all_absent(apply_op(m, ops[0]), rest);
        assert forall|i: int| 0 <= i < ops.len() implies lookup(apply_ops(m, ops), op_key(#[trigger] ops[i])) == None::<FrameModel> by {
            if i == 0 {
                let k = op_key(ops[0]);
                let after = apply_op(m, ops[0]);
                assert(!after.contains_key(k));
                if exists|j: int| 0 <= j < rest.len() && op_key(#[trigger] rest[j]) == k {
                    let j = choose|j: int| 0 <= j < rest.len() && op_key(#[trigger] rest[j]) == k;
                    assert(lookup(apply_ops(after, rest), op_key(rest[j])) == None::<FrameModel>);
                } else {
                    lemma_other_writes_keep(after, rest, k);
                }
            } else {
                assert(rest[i - 1] == ops[i]);
            }
        }
    }
}

/// A GET of an entry that never expires answers with its value and drops
/// nothing; a conditional removal of it leaves the store as it was.
pub proof fn get_keeps_plain_entry(m: Map<Seq<u8>, FrameModel>, k: Seq<u8>, d: Seq<u8>, now: nat)
    requires
        lookup(m, k) == Some(FrameModel::Plain(d)),
    ensures
        get_reply(lookup(m, k), now) == (Resp::BulkString(d), false),
        remove_if_expired_spec(m, k, now) == m,
{
}

/// A GET of an expired entry answers null and drops it; after that `get`
/// finds nothing under the key until it is set again.
pub proof fn get_expired_clears(m: Map<Seq<u8>, FrameModel>, k: Seq<u8>, now: nat, later: Seq<StoreOp>)
    requires
        lookup(m, k) matches Some(f) && frame_expired(f, now),
        untouched(later, k),
    ensures
        get_reply(lookup(m, k), now) == (Resp::NullBulkString, true),
        lookup(apply_ops(remove_if_expired_spec(m, k, now), later), k) == None::<FrameModel>,
{
    get_after_remove(m, k, later);
}

/// An entry set afresh after it was sampled, and live at `now`, survives the
/// sweeper's conditional removal.
pub proof fn refreshed_entry_survives(m: Map<Seq<u8>, FrameModel>, k: Seq<u8>, f: FrameModel, now: nat)
    requires
        !frame_expired(f, now),
    ensures
        remove_if_expired_spec(m.insert(k, f), k, now) == m.insert(k, f),
        lookup(remove_if_expired_spec(m.insert(k, f), k, now), k) == Some(f),
{
}

} // verus!
