//! Properties of runs of operations, stated over the key sets that the
//! contracts of `BTree::insert` and `BTree::delete` describe.
use vstd::prelude::*;

use crate::tree::{lemma_i32_set_finite, BTree};

verus! {

/// One mutating operation on a tree.
pub enum TreeOp {
    Insert(i32),
    Delete(i32),
}

/// The keys of a tree after one operation, as `BTree::insert` and
/// `BTree::delete` state it.
pub open spec fn apply_op(s: Set<i32>, op: TreeOp) -> Set<i32> {
    match op {
        TreeOp::Insert(k) => s.insert(k),
        TreeOp::Delete(k) => s.remove(k),
    }
}

/// The keys of a tree holding `s` after `ops` are applied in order.
pub open spec fn apply_ops(s: Set<i32>, ops: Seq<TreeOp>) -> Set<i32>
    decreases ops.len(),
{
    if ops.len() == 0 {
        s
    } else {
        apply_ops(apply_op(s, ops[0]), ops.drop_first())
    }
}

/// Inserting each of `keys` in turn.
pub open spec fn inserts(keys: Seq<i32>) -> Seq<TreeOp> {
    keys.map_values(|k: i32| TreeOp::Insert(k))
}

/// Deleting each of `keys` in turn.
pub open spec fn deletes(keys: Seq<i32>) -> Seq<TreeOp> {
    keys.map_values(|k: i32| TreeOp::Delete(k))
}

proof fn lemma_apply_ops_append(s: Set<i32>, a: Seq<TreeOp>, b: Seq<TreeOp>)
    ensures
        apply_ops(s, a + b) == apply_ops(apply_ops(s, a), b),
    decreases a.len(),
{
    if a.len() > 0 {
        assert((a + b).drop_first() =~= a.drop_first() + b);
        lemma_apply_ops_append(apply_op(s, a[0]), a.drop_first(), b);
    } else {
        assert(a + b =~= b);
    }
}

proof fn lemma_apply_inserts(s: Set<i32>, keys: Seq<i32>)
    ensures
        apply_ops(s, inserts(keys)) == s + keys.to_set(),
    decreases keys.len(),
{
    if keys.len() > 0 {
        assert(inserts(keys).drop_first() =~= inserts(keys.drop_first()));
        lemma_apply_inserts(s.insert(keys[0]), keys.drop_first());
        assert(s.insert(keys[0]) + keys.drop_first().to_set() =~= s + keys.to_set()) by {
            assert forall|x: i32| keys.to_set().contains(x) implies x == keys[0]
                || keys.drop_first().to_set().contains(x) by {
                let i = choose|i: int| 0 <= i < keys.len() && keys[i] == x;
                if i > 0 {
                    assert(keys.drop_first()[i - 1] == x);
                }
            }
            assert forall|x: i32| keys.drop_first().to_set().contains(x) implies keys.to_set().contains(x) by {
                let i = choose|i: int| 0 <= i < keys.drop_first().len() && keys.drop_first()[i] == x;
                assert(keys[i + 1] == x);
            }
            assert(keys.to_set().contains(keys[0]));
        }
    } else {
        assert(s + keys.to_set() =~= s);
    }
}

proof fn lemma_apply_deletes(s: Set<i32>, keys: Seq<i32>)
    ensures
        apply_ops(s, deletes(keys)) == s - keys.to_set(),
    decreases keys.len(),
{
    if keys.len() > 0 {
        assert(deletes(keys).drop_first() =~= deletes(keys.drop_first()));
        lemma_apply_deletes(s.remove(keys[0]), keys.drop_first());
        assert(s.remove(keys[0]) - keys.drop_first().to_set() =~= s - keys.to_set()) by {
            assert forall|x: i32| keys.to_set().contains(x) implies x == keys[0]
                || keys.drop_first().to_set().contains(x) by {
                let i = choose|i: int| 0 <= i < keys.len() && keys[i] == x;
                if i > 0 {
                    assert(keys.drop_first()[i - 1] == x);
                }
            }
            assert forall|x: i32| keys.drop_first().to_set().contains(x) implies keys.to_set().contains(x) by {
                let i = choose|i: int| 0 <= i < keys.drop_first().len() && keys.drop_first()[i] == x;
                assert(keys[i + 1] == x);
            }
            assert(keys.to_set().contains(keys[0]));
        }
    } else {
        assert(s - keys.to_set() =~= s);
    }
}

/// A key that was inserted, and not deleted by any later operation, is
/// found by `search` after every run of operations.
pub proof fn law_inserted_key_is_found(s: Set<i32>, ops: Seq<TreeOp>, i: int, k: i32)
    requires
        0 <= i < ops.len(),
        ops[i] == TreeOp::Insert(k),
        forall|j: int| i < j < ops.len() ==> ops[j] != TreeOp::Delete(k),
    ensures
        apply_ops(s, ops).contains(k),
    decreases ops.len(),
{
    if i > 0 {
        law_inserted_key_is_found(apply_op(s, ops[0]), ops.drop_first(), i - 1, k);
    } else {
        lemma_kept(apply_op(s, ops[0]), ops.drop_first(), k);
    }
}

proof fn lemma_kept(s: Set<i32>, ops: Seq<TreeOp>, k: i32)
    requires
        s.contains(k),
        forall|j: int| 0 <= j < ops.len() ==> ops[j] != TreeOp::Delete(k),
    ensures
        apply_ops(s, ops).contains(k),
    decreases ops.len(),
{
    if ops.len() > 0 {
        assert(ops[0] != TreeOp::Delete(k));
        lemma_kept(apply_op(s, ops[0]), ops.drop_first(), k);
    }
}

/// Deleting a key that a well-formed tree holds removes it, and the total
/// key count drops by exactly one.
pub proof fn law_delete_present(before: BTree, after: BTree, k: i32)
    requires
        before.wf(),
        before@.contains(k),
        after@ == before@.remove(k),
    ensures
        !after@.contains(k),
        after@.len() == before@.len() - 1,
{
    lemma_i32_set_finite(before@);
}

/// Inserting distinct keys into an empty tree and then deleting all of
/// them, in any order, leaves a tree without keys, without a root and of
/// height zero.
pub proof fn law_round_trip(keys: Seq<i32>, order: Seq<i32>, t: BTree)
    requires
        keys.no_duplicates(),
        order.no_duplicates(),
        order.to_set() == keys.to_set(),
        t.wf(),
        t@ == apply_ops(Set::empty(), inserts(keys) + deletes(order)),
    ensures
        t@ == Set::<i32>::empty(),
        t@.len() == 0,
        t.root_node() is None,
        t.height() == 0,
{
    lemma_apply_ops_append(Set::empty(), inserts(keys), deletes(order));
    lemma_apply_inserts(Set::empty(), keys);
    lemma_apply_deletes(Set::<i32>::empty() + keys.to_set(), order);
    assert(Set::<i32>::empty() + keys.to_set() - order.to_set() =~= Set::<i32>::empty());
    t.lemma_view();
}

} // verus!
