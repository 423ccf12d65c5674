//! Laws of the batch engines.
//!
//! The central results: rolling a batch back is idempotent; rolling back on
//! an empty store changes nothing; and applying a batch to an empty store —
//! successfully or failing at any depth — followed by one rollback of the
//! structurally identical batch leaves the store empty again.  The laws hold
//! of every batch whose sibling operations address distinct slots (`wf_ops`);
//! siblings that write the same slot twice are not covered.

use vstd::prelude::*;

use crate::registry::OpModel;
use crate::registry::RegKeyMode;
use crate::registry::m_apply_op;
use crate::registry::m_apply_ops;
use crate::registry::m_unapply_op;
use crate::registry::m_unapply_ops;
use crate::store::NodeModel;
use crate::store::ValueModel;
use crate::store::empty_node;
use crate::store::m_del_value;
use crate::store::m_set_value;
use crate::store::node_is_empty;
use crate::store::val_slot;

verus! {

/// Whether two operations address the same slot of the same node: the same
/// value name (or both the unnamed value), or the same child name.
pub open spec fn same_slot(a: OpModel, b: OpModel) -> bool {
    match (a, b) {
        (OpModel::Value { name: na, .. }, OpModel::Value { name: nb, .. }) => na == nb,
        (OpModel::Key { name: na, .. }, OpModel::Key { name: nb, .. }) => na == nb,
        _ => false,
    }
}

/// Sibling-distinct, recursively: no two operations of the list address the
/// same slot, and the operation list of every `Key` operation is
/// sibling-distinct too.
pub open spec fn wf_ops(ops: Seq<OpModel>) -> bool
    decreases ops, 0nat,
{
    &&& forall|i: int, j: int|
        0 <= i < j < ops.len() ==> !same_slot(#[trigger] ops[i], #[trigger] ops[j])
    &&& forall|i: int| 0 <= i < ops.len() ==> wf_op(#[trigger] ops[i])
}

/// Sibling-distinct inside one operation.
pub open spec fn wf_op(op: OpModel) -> bool
    decreases op, 1nat,
{
    match op {
        OpModel::Value { .. } => true,
        OpModel::Key { operations, .. } => wf_ops(operations),
    }
}

/// One local change to a node's content: setting or clearing the unnamed
/// value slot, one named value slot, or one child slot.
pub ghost enum SlotEdit {
    Def(Option<ValueModel>),
    Val(Seq<u16>, Option<ValueModel>),
    Kid(Seq<u16>, Option<NodeModel>),
}

/// The edit, performed.
pub open spec fn apply_edit(n: NodeModel, e: SlotEdit) -> NodeModel {
    match e {
        SlotEdit::Def(d) => NodeModel { def: d, ..n },
        SlotEdit::Val(k, None) => NodeModel { vals: n.vals.remove(k), ..n },
        SlotEdit::Val(k, Some(v)) => NodeModel { vals: n.vals.insert(k, v), ..n },
        SlotEdit::Kid(k, None) => NodeModel { kids: n.kids.remove(k), ..n },
        SlotEdit::Kid(k, Some(c)) => NodeModel { kids: n.kids.insert(k, c), ..n },
    }
}

/// Whether an operation leaves the edited slot alone.
pub open spec fn op_avoids(op: OpModel, e: SlotEdit) -> bool {
    match (op, e) {
        (OpModel::Value { name, .. }, SlotEdit::Def(_)) => name is Some,
        (OpModel::Value { name, .. }, SlotEdit::Val(k, _)) => name != Some(k),
        (OpModel::Value { .. }, SlotEdit::Kid(_, _)) => true,
        (OpModel::Key { .. }, SlotEdit::Def(_)) => true,
        (OpModel::Key { .. }, SlotEdit::Val(_, _)) => true,
        (OpModel::Key { name, .. }, SlotEdit::Kid(k, _)) => name != k,
    }
}

/// Rolling back one operation that avoids a slot commutes with editing that
/// slot.
proof fn lemma_unapply_op_edit(n: NodeModel, op: OpModel, e: SlotEdit)
    requires
        op_avoids(op, e),
    ensures
        m_unapply_op(apply_edit(n, e), op) == apply_edit(m_unapply_op(n, op), e),
{
    let n1 = apply_edit(n, e);
    assert(n1.ro == n.ro);
    match op {
        OpModel::Value { name, value } => {
            if n.ro {
            } else {
                assert(m_unapply_op(n1, op) =~~= apply_edit(m_unapply_op(n, op), e));
            }
        },
        OpModel::Key { mode, name, operations } => {
            assert(n1.kids.contains_key(name) == n.kids.contains_key(name));
            if !n.kids.contains_key(name) {
            } else {
                assert(n1.kids[name] == n.kids[name]);
                let c = n.kids[name];
                if c.ro {
                } else {
                    let c2 = m_unapply_ops(c, operations, 0);
                    if mode is Create && !n.ro && node_is_empty(c2) {
                        match e {
                            SlotEdit::Kid(k, None) => {
                                assert(n.kids.remove(k).remove(name) =~= n.kids.remove(
                                    name,
                                ).remove(k));
                            },
                            SlotEdit::Kid(k, Some(c0)) => {
                                assert(n.kids.insert(k, c0).remove(name) =~= n.kids.remove(
                                    name,
                                ).insert(k, c0));
                            },
                            _ => {},
                        }
                        assert(m_unapply_op(n1, op) =~~= apply_edit(m_unapply_op(n, op), e));
                    } else {
                        match e {
                            SlotEdit::Kid(k, None) => {
                                assert(n.kids.remove(k).insert(name, c2) =~= n.kids.insert(
                                    name,
                                    c2,
                                ).remove(k));
                            },
                            SlotEdit::Kid(k, Some(c0)) => {
                                assert(n.kids.insert(k, c0).insert(name, c2) =~= n.kids.insert(
                                    name,
                                    c2,
                                ).insert(k, c0));
                            },
                            _ => {},
                        }
                        assert(m_unapply_op(n1, op) =~~= apply_edit(m_unapply_op(n, op), e));
                    }
                }
            }
        },
    }
}

/// Rolling back `ops[i..]`, all of which avoid a slot, commutes with editing
/// that slot.
proof fn lemma_unapply_ops_edit(n: NodeModel, ops: Seq<OpModel>, i: int, e: SlotEdit)
    requires
        forall|t: int| i <= t < ops.len() ==> op_avoids(#[trigger] ops[t], e),
    ensures
        m_unapply_ops(apply_edit(n, e), ops, i) == apply_edit(m_unapply_ops(n, ops, i), e),
    decreases ops.len() - i,
{
    if i < 0 || i >= ops.len() {
    } else {
        lemma_unapply_ops_edit(n, ops, i + 1, e);
        lemma_unapply_op_edit(m_unapply_ops(n, ops, i + 1), ops[i], e);
    }
}

/// Rolling back one operation never creates anything on an empty node.
proof fn lemma_unapply_op_empty(op: OpModel)
    ensures
        m_unapply_op(empty_node(), op) == empty_node(),
{
    match op {
        OpModel::Value { name, .. } => {
            assert(m_unapply_op(empty_node(), op) =~~= empty_node());
        },
        OpModel::Key { name, .. } => {
            assert(!empty_node().kids.contains_key(name));
        },
    }
}

/// Rolling a batch back on an empty store is a no-op: nothing is there to
/// delete, and rollback never creates.
pub proof fn lemma_unapply_ops_empty(ops: Seq<OpModel>, i: int)
    ensures
        m_unapply_ops(empty_node(), ops, i) == empty_node(),
    decreases ops.len() - i,
{
    if i < 0 || i >= ops.len() {
    } else {
        lemma_unapply_ops_empty(ops, i + 1);
        lemma_unapply_op_empty(ops[i]);
    }
}

/// Applying operations never changes whether the node itself refuses writes.
proof fn lemma_apply_ops_keeps_ro(n: NodeModel, ops: Seq<OpModel>, i: int)
    ensures
        m_apply_ops(n, ops, i).0.ro == n.ro,
    decreases ops.len() - i,
{
    if i < 0 || i >= ops.len() {
    } else {
        let r = m_apply_op(n, ops[i]);
        assert(r.0.ro == n.ro);
        if !(r.1 is Some) {
            lemma_apply_ops_keeps_ro(r.0, ops, i + 1);
        }
    }
}

/// Rolling back never changes whether the node itself refuses writes.
proof fn lemma_unapply_ops_keeps_ro(n: NodeModel, ops: Seq<OpModel>, i: int)
    ensures
        m_unapply_ops(n, ops, i).ro == n.ro,
    decreases ops.len() - i,
{
    if i < 0 || i >= ops.len() {
    } else {
        lemma_unapply_ops_keeps_ro(n, ops, i + 1);
        assert(m_unapply_op(m_unapply_ops(n, ops, i + 1), ops[i]).ro == m_unapply_ops(
            n,
            ops,
            i + 1,
        ).ro);
    }
}

/// The later operations leave the slot of `ops[i]` alone.
proof fn lemma_wf_later_avoid(ops: Seq<OpModel>, i: int, e: SlotEdit)
    requires
        0 <= i < ops.len(),
        forall|a: int, b: int|
            0 <= a < b < ops.len() ==> !same_slot(#[trigger] ops[a], #[trigger] ops[b]),
        (ops[i] matches OpModel::Value { name: None, .. } && e matches SlotEdit::Def(_)) || (
        ops[i] matches OpModel::Value { name: Some(k), .. } && (e matches SlotEdit::Val(
            k2,
            _,
        ) && k2 == k)) || (ops[i] matches OpModel::Key { name: k, .. } && (e
            matches SlotEdit::Kid(k2, _) && k2 == k)),
    ensures
        forall|t: int| i + 1 <= t < ops.len() ==> op_avoids(#[trigger] ops[t], e),
{
    assert forall|t: int| i + 1 <= t < ops.len() implies op_avoids(#[trigger] ops[t], e) by {
        assert(!same_slot(ops[i], ops[t]));
    }
}

/// The heart of compensation: rolling back `ops[i]` after the later
/// operations were rolled back erases what applying `ops[i]` did.
proof fn lemma_bridge(n: NodeModel, ops: Seq<OpModel>, i: int)
    requires
        wf_ops(ops),
        0 <= i < ops.len(),
    ensures
        m_unapply_op(m_unapply_ops(m_apply_op(n, ops[i]).0, ops, i + 1), ops[i]) == m_unapply_op(
            m_unapply_ops(n, ops, i + 1),
            ops[i],
        ),
    decreases ops, ops.len() - i, 0nat,
{
    let op = ops[i];
    let n1 = m_apply_op(n, op).0;
    let u = m_unapply_ops(n, ops, i + 1);
    lemma_unapply_ops_keeps_ro(n, ops, i + 1);
    assert(u.ro == n.ro);
    match op {
        OpModel::Value { name, value } => {
            if n.ro {
            } else {
                let e = match name {
                    None => SlotEdit::Def(Some(value)),
                    Some(k) => SlotEdit::Val(k, Some(value)),
                };
                assert(n1 =~~= apply_edit(n, e));
                lemma_wf_later_avoid(ops, i, e);
                lemma_unapply_ops_edit(n, ops, i + 1, e);
                assert(m_unapply_ops(n1, ops, i + 1) == apply_edit(u, e));
                assert(m_unapply_op(apply_edit(u, e), op) =~~= m_unapply_op(u, op));
            }
        },
        OpModel::Key { mode, name, operations } => {
            assert(wf_op(op));
            if n.kids.contains_key(name) {
                let c = n.kids[name];
                if c.ro {
                } else {
                    let c_ap = m_apply_ops(c, operations, 0).0;
                    let e = SlotEdit::Kid(name, Some(c_ap));
                    assert(n1 =~~= apply_edit(n, e));
                    lemma_wf_later_avoid(ops, i, e);
                    lemma_unapply_ops_edit(n, ops, i + 1, e);
                    let x = apply_edit(u, e);
                    assert(m_unapply_ops(n1, ops, i + 1) == x);
                    // the later rollbacks leave the child as it was
                    let e0 = SlotEdit::Kid(name, Some(c));
                    assert(n.kids.insert(name, c) =~= n.kids);
                    assert(apply_edit(n, e0) =~~= n);
                    lemma_wf_later_avoid(ops, i, e0);
                    lemma_unapply_ops_edit(n, ops, i + 1, e0);
                    assert(u =~~= apply_edit(u, e0));
                    assert(u.kids.contains_key(name) && u.kids[name] == c);
                    // the child keeps its write flag through apply
                    lemma_apply_ops_keeps_ro(c, operations, 0);
                    assert(c_ap.ro == c.ro);
                    // rolling the child back erases what applying it did
                    lemma_rollback_compensates(c, operations, 0);
                    let c2 = m_unapply_ops(c, operations, 0);
                    assert(m_unapply_ops(c_ap, operations, 0) == c2);
                    assert(x.kids.contains_key(name) && x.kids[name] == c_ap);
                    assert(x.ro == u.ro);
                    if mode is Create && !u.ro && node_is_empty(c2) {
                        assert(x.kids.remove(name) =~= u.kids.remove(name));
                        assert(m_unapply_op(x, op) =~~= m_unapply_op(u, op));
                    } else {
                        assert(x.kids.insert(name, c2) =~= u.kids.insert(name, c2));
                        assert(m_unapply_op(x, op) =~~= m_unapply_op(u, op));
                    }
                }
            } else {
                match mode {
                    RegKeyMode::Open => {
                        assert(n1 == n);
                    },
                    RegKeyMode::Create => {
                        if n.ro {
                        } else {
                            let c_ap = m_apply_ops(empty_node(), operations, 0).0;
                            let e = SlotEdit::Kid(name, Some(c_ap));
                            assert(n1 =~~= apply_edit(n, e));
                            lemma_wf_later_avoid(ops, i, e);
                            lemma_unapply_ops_edit(n, ops, i + 1, e);
                            let x = apply_edit(u, e);
                            assert(m_unapply_ops(n1, ops, i + 1) == x);
                            // the slot stays absent through the later rollbacks
                            let e0 = SlotEdit::Kid(name, None);
                            assert(n.kids.remove(name) =~= n.kids);
                            assert(apply_edit(n, e0) =~~= n);
                            lemma_wf_later_avoid(ops, i, e0);
                            lemma_unapply_ops_edit(n, ops, i + 1, e0);
                            assert(u =~~= apply_edit(u, e0));
                            assert(!u.kids.contains_key(name));
                            // the created child keeps its write flag
                            lemma_apply_ops_keeps_ro(empty_node(), operations, 0);
                            assert(c_ap.ro == false);
                            // rolling the fresh child back leaves it empty
                            lemma_rollback_compensates(empty_node(), operations, 0);
                            lemma_unapply_ops_empty(operations, 0);
                            assert(m_unapply_ops(c_ap, operations, 0) == empty_node());
                            assert(node_is_empty(empty_node()));
                            assert(x.kids.contains_key(name) && x.kids[name] == c_ap);
                            assert(x.kids.remove(name) =~= u.kids);
                            assert(m_unapply_op(x, op) =~~= u);
                            assert(m_unapply_op(u, op) == u);
                        }
                    },
                }
            }
        },
    }
}

/// Rolling back a batch erases whatever applying it changed: rolling back
/// after an apply — successful or failed at any depth — ends in the same
/// store as rolling back without the apply.
pub proof fn lemma_rollback_compensates(n: NodeModel, ops: Seq<OpModel>, i: int)
    requires
        wf_ops(ops),
        0 <= i <= ops.len(),
    ensures
        m_unapply_ops(m_apply_ops(n, ops, i).0, ops, i) == m_unapply_ops(n, ops, i),
    decreases ops, ops.len() - i, 1nat,
{
    if i < ops.len() {
        let r = m_apply_op(n, ops[i]);
        if r.1 is Some {
            lemma_bridge(n, ops, i);
        } else {
            lemma_rollback_compensates(r.0, ops, i + 1);
            lemma_bridge(n, ops, i);
        }
    }
}

/// Rolling back one operation twice is the same as rolling it back once.
proof fn lemma_unapply_op_idem(m: NodeModel, op: OpModel)
    requires
        wf_op(op),
    ensures
        m_unapply_op(m_unapply_op(m, op), op) == m_unapply_op(m, op),
    decreases op, 0nat, 0nat,
{
    let m1 = m_unapply_op(m, op);
    assert(m1.ro == m.ro);
    match op {
        OpModel::Value { name, .. } => {
            if m.ro {
            } else {
                assert(m_unapply_op(m1, op) =~~= m1);
            }
        },
        OpModel::Key { mode, name, operations } => {
            if !m.kids.contains_key(name) {
            } else if m.kids[name].ro {
            } else {
                let c = m.kids[name];
                let c2 = m_unapply_ops(c, operations, 0);
                lemma_unapply_ops_keeps_ro(c, operations, 0);
                assert(c2.ro == c.ro);
                if mode is Create && !m.ro && node_is_empty(c2) {
                    assert(!m1.kids.contains_key(name));
                    assert(m_unapply_op(m1, op) == m1);
                } else {
                    assert(m1.kids.contains_key(name) && m1.kids[name] == c2);
                    lemma_unapply_ops_idem(c, operations, 0);
                    assert(m_unapply_ops(c2, operations, 0) == c2);
                    assert(m1.kids.insert(name, c2) =~= m1.kids);
                    assert(m_unapply_op(m1, op) =~~= m1);
                }
            }
        },
    }
}

/// Rolling back `ops[i..]` twice is the same as rolling it back once.
pub proof fn lemma_unapply_ops_idem(n: NodeModel, ops: Seq<OpModel>, i: int)
    requires
        wf_ops(ops),
        0 <= i <= ops.len(),
    ensures
        m_unapply_ops(m_unapply_ops(n, ops, i), ops, i) == m_unapply_ops(n, ops, i),
    decreases ops, ops.len() - i, 1nat,
{
    if i < ops.len() {
        let op = ops[i];
        let x = m_unapply_ops(n, ops, i + 1);
        let y = m_unapply_op(x, op);
        lemma_unapply_ops_idem(n, ops, i + 1);
        // characterize the step as an edit of x at the slot of ops[i], or as
        // no change at all, and push it through the later rollbacks
        match op {
            OpModel::Value { name, .. } => {
                if x.ro {
                    assert(y == x);
                    assert(m_unapply_ops(y, ops, i + 1) == y);
                } else {
                    let e = match name {
                        None => SlotEdit::Def(None),
                        Some(k) => SlotEdit::Val(k, None),
                    };
                    assert(y =~~= apply_edit(x, e));
                    lemma_wf_later_avoid(ops, i, e);
                    lemma_unapply_ops_edit(x, ops, i + 1, e);
                    assert(m_unapply_ops(y, ops, i + 1) == apply_edit(
                        m_unapply_ops(x, ops, i + 1),
                        e,
                    ));
                    assert(m_unapply_ops(x, ops, i + 1) == x);
                    assert(m_unapply_ops(y, ops, i + 1) == y);
                }
            },
            OpModel::Key { mode, name, operations } => {
                if !x.kids.contains_key(name) || x.kids[name].ro {
                    assert(y == x);
                    assert(m_unapply_ops(y, ops, i + 1) == y);
                } else {
                    let c = x.kids[name];
                    let c2 = m_unapply_ops(c, operations, 0);
                    let e = if mode is Create && !x.ro && node_is_empty(c2) {
                        SlotEdit::Kid(name, None)
                    } else {
                        SlotEdit::Kid(name, Some(c2))
                    };
                    assert(y =~~= apply_edit(x, e));
                    lemma_wf_later_avoid(ops, i, e);
                    lemma_unapply_ops_edit(x, ops, i + 1, e);
                    assert(m_unapply_ops(x, ops, i + 1) == x);
                    assert(m_unapply_ops(y, ops, i + 1) == y);
                }
            },
        }
        assert(wf_op(op));
        lemma_unapply_op_idem(x, op);
        assert(m_unapply_op(y, op) == y);
    }
}

/// Round-trip: applying a sibling-distinct batch to an empty store and then
/// rolling the structurally identical batch back leaves the store empty,
/// whether the apply succeeded or failed at any depth.
pub proof fn lemma_roundtrip_on_empty(ops: Seq<OpModel>)
    requires
        wf_ops(ops),
    ensures
        m_unapply_ops(m_apply_ops(empty_node(), ops, 0).0, ops, 0) == empty_node(),
{
    lemma_rollback_compensates(empty_node(), ops, 0);
    lemma_unapply_ops_empty(ops, 0);
}

/// Rolling a sibling-distinct batch back twice in succession ends in the
/// same store as rolling it back once.
pub proof fn lemma_rollback_idempotent(n: NodeModel, ops: Seq<OpModel>)
    requires
        wf_ops(ops),
    ensures
        m_unapply_ops(m_unapply_ops(n, ops, 0), ops, 0) == m_unapply_ops(n, ops, 0),
{
    lemma_unapply_ops_idem(n, ops, 0);
}

/// Writing the unnamed (default) value never disturbs any named value or any
/// child, and writing a named value never disturbs the unnamed one, any
/// other name, or any child.
pub proof fn lemma_default_named_independence(
    n: NodeModel,
    d: ValueModel,
    k: Seq<u16>,
    v: ValueModel,
)
    ensures
        m_set_value(n, None, d).vals == n.vals,
        m_set_value(n, None, d).kids == n.kids,
        m_set_value(n, Some(k), v).def == n.def,
        m_set_value(n, Some(k), v).kids == n.kids,
        forall|k2: Seq<u16>|
            k2 != k ==> val_slot(m_set_value(n, Some(k), v), Some(k2)) == val_slot(n, Some(k2)),
        val_slot(m_set_value(n, None, d), Some(k)) == val_slot(n, Some(k)),
        val_slot(m_set_value(n, Some(k), v), None) == val_slot(n, None),
{
}

/// Likewise for deletion, as rollback performs it.
pub proof fn lemma_default_named_independence_delete(n: NodeModel, k: Seq<u16>)
    ensures
        m_del_value(n, None).vals == n.vals,
        m_del_value(n, Some(k)).def == n.def,
        forall|k2: Seq<u16>|
            k2 != k ==> val_slot(m_del_value(n, Some(k)), Some(k2)) == val_slot(n, Some(k2)),
        val_slot(m_del_value(n, None), Some(k)) == val_slot(n, Some(k)),
{
}

proof fn lemma_apply_shift(n: NodeModel, ops1: Seq<OpModel>, ops2: Seq<OpModel>, j: int)
    requires
        0 <= j <= ops2.len(),
    ensures
        m_apply_ops(n, ops1 + ops2, ops1.len() + j) == m_apply_ops(n, ops2, j),
    decreases ops2.len() - j,
{
    if j < ops2.len() {
        assert((ops1 + ops2)[ops1.len() + j] == ops2[j]);
        let r = m_apply_op(n, ops2[j]);
        if !(r.1 is Some) {
            lemma_apply_shift(r.0, ops1, ops2, j + 1);
        }
    }
}

/// Apply runs siblings in declared order: applying a concatenation applies
/// the first list and — only if that succeeded — the second list after it,
/// against the store the first list left behind.
pub proof fn lemma_apply_in_declared_order(
    n: NodeModel,
    ops1: Seq<OpModel>,
    ops2: Seq<OpModel>,
    i: int,
)
    requires
        0 <= i <= ops1.len(),
    ensures
        ({
            let r1 = m_apply_ops(n, ops1, i);
            m_apply_ops(n, ops1 + ops2, i) == if r1.1 is Some {
                r1
            } else {
                m_apply_ops(r1.0, ops2, 0)
            }
        }),
    decreases ops1.len() - i,
{
    if i < ops1.len() {
        assert((ops1 + ops2)[i] == ops1[i]);
        let r = m_apply_op(n, ops1[i]);
        if !(r.1 is Some) {
            lemma_apply_in_declared_order(r.0, ops1, ops2, i + 1);
        }
    } else {
        lemma_apply_shift(n, ops1, ops2, 0);
        assert(ops1.len() + 0 == ops1.len());
    }
}

proof fn lemma_unapply_shift(n: NodeModel, ops1: Seq<OpModel>, ops2: Seq<OpModel>, j: int)
    requires
        0 <= j <= ops2.len(),
    ensures
        m_unapply_ops(n, ops1 + ops2, ops1.len() + j) == m_unapply_ops(n, ops2, j),
    decreases ops2.len() - j,
{
    if j < ops2.len() {
        lemma_unapply_shift(n, ops1, ops2, j + 1);
        assert((ops1 + ops2)[ops1.len() + j] == ops2[j]);
    }
}

/// Rollback runs siblings in exact reverse declared order: rolling back a
/// concatenation rolls the second list back first, and the first list only
/// after it, against the store the second list's rollback left behind.
pub proof fn lemma_rollback_in_reverse_order(
    n: NodeModel,
    ops1: Seq<OpModel>,
    ops2: Seq<OpModel>,
    i: int,
)
    requires
        0 <= i <= ops1.len(),
    ensures
        m_unapply_ops(n, ops1 + ops2, i) == m_unapply_ops(m_unapply_ops(n, ops2, 0), ops1, i),
    decreases ops1.len() - i,
{
    if i < ops1.len() {
        lemma_rollback_in_reverse_order(n, ops1, ops2, i + 1);
        assert((ops1 + ops2)[i] == ops1[i]);
    } else {
        lemma_unapply_shift(n, ops1, ops2, 0);
        assert(ops1.len() + 0 == ops1.len());
    }
}

/// Rollback never removes a node an operation merely opened: an `Open`-mode
/// operation leaves the node's existence exactly as it found it.
pub proof fn lemma_open_mode_keeps_node(n: NodeModel, name: Seq<u16>, operations: Seq<OpModel>)
    ensures
        m_unapply_op(
            n,
            OpModel::Key { mode: RegKeyMode::Open, name, operations },
        ).kids.contains_key(name) == n.kids.contains_key(name),
{
    let op = OpModel::Key { mode: RegKeyMode::Open, name, operations };
    if n.kids.contains_key(name) && !n.kids[name].ro {
        assert(m_unapply_op(n, op).kids.contains_key(name));
    }
}

} // verus!
