//! The batch mutation model and its engines.
//!
//! A `RegBatch` is an ordered tree of operations: write a value on the
//! current node, or create/open a named child and apply an operation list
//! under it.  `apply` walks the tree in declared order and stops at the
//! first failure; `unapply` walks it in exact reverse order, deletes what
//! apply would have written, deletes the nodes it created once they are
//! empty, and never fails outward.

use vstd::prelude::*;

use crate::laws::same_slot;
use crate::laws::wf_op;
use crate::laws::wf_ops;
use crate::store::NodeModel;
use crate::store::StoreNode;
use crate::store::ValueModel;
use crate::store::empty_node;
use crate::store::find_kid;
use crate::store::lemma_kids_map_absent;
use crate::store::lemma_kids_map_get;
use crate::store::lemma_kids_map_push;
use crate::store::lemma_kids_map_remove;
use crate::store::lemma_kids_map_update;
use crate::store::m_del_value;
use crate::store::m_set_value;
use crate::store::name_model;
use crate::store::node_is_empty;
use crate::winstr::WinStr;
use crate::winstr::wide_lit;

verus! {

/// A scalar value a node can hold.  Text is the one concrete kind; further
/// kinds would be further variants, each with its own type tag and encoding.
pub enum RegValue {
    /// A text value in the store's wide-character representation.
    Sz(WinStr),
}

/// The mathematical value a `RegValue` stands for.
pub open spec fn val_model(v: RegValue) -> ValueModel {
    match v {
        RegValue::Sz(s) => ValueModel::Sz(s@),
    }
}

impl RegValue {
    /// A text value built from ordinary text.
    pub fn of_str(s: &str) -> (r: RegValue)
        ensures
            val_model(r) == ValueModel::Sz(crate::winstr::wide_lit(s@)),
    {
        RegValue::Sz(WinStr::from_str(s))
    }

    /// A value of the same content.
    pub fn dup(&self) -> (r: RegValue)
        ensures
            val_model(r) == val_model(*self),
    {
        match self {
            RegValue::Sz(s) => RegValue::Sz(s.dup()),
        }
    }

    /// The store's native encoding of the value: its type tag and its bytes.
    /// Text carries tag 1, the store's tag for a zero-terminated string.
    pub fn get_data(&self) -> (r: (u32, Vec<u8>))
        ensures
            r.0 == 1u32,
            match *self {
                RegValue::Sz(s) => r.1@ == crate::winstr::wide_bytes(s@),
            },
    {
        match self {
            RegValue::Sz(s) => (1u32, s.bytes_slice()),
        }
    }
}

/// How a `Key` operation obtains its node.
#[derive(Clone, Copy, PartialEq, Eq, Structural, Debug)]
pub enum RegKeyMode {
    /// Create the node, or open it if it already exists; rollback deletes
    /// the node once it is empty again.
    Create,
    /// Open the node and fail if it is absent; rollback never deletes it.
    Open,
}

/// One operation of a batch.
pub enum RegOp {
    /// Write a value on the current node: under the given name, or into the
    /// unnamed (default) slot if the name is absent.
    Value(Option<WinStr>, RegValue),
    /// Obtain the named child node and run an operation list against it.
    Key { mode: RegKeyMode, name: WinStr, operations: Vec<RegOp> },
}

/// The mathematical content of one operation.
#[verifier::ext_equal]
pub ghost enum OpModel {
    Value { name: Option<Seq<u16>>, value: ValueModel },
    Key { mode: RegKeyMode, name: Seq<u16>, operations: Seq<OpModel> },
}

/// The models of a sequence of operations, in order.
pub open spec fn ops_model(s: Seq<RegOp>) -> Seq<OpModel>
    decreases s,
{
    if s.len() == 0 {
        Seq::empty()
    } else {
        ops_model(s.drop_last()).push(s.last().op_model())
    }
}

impl RegOp {
    /// The mathematical content of this operation.
    pub open spec fn op_model(&self) -> OpModel
        decreases self,
    {
        match self {
            RegOp::Value(name, value) => OpModel::Value {
                name: match name {
                    None => None,
                    Some(n) => Some(n@),
                },
                value: val_model(*value),
            },
            RegOp::Key { mode, name, operations } => OpModel::Key {
                mode: *mode,
                name: name@,
                operations: ops_model(operations@),
            },
        }
    }
}

/// A batch: an ordered sequence of operations against a root node.
pub struct RegBatch {
    pub operations: Vec<RegOp>,
}

impl RegBatch {
    /// The mathematical content of the batch.
    pub open spec fn batch_model(&self) -> Seq<OpModel> {
        ops_model(self.operations@)
    }
}

/// What applying one operation to a node's content yields: the new content,
/// and the first failure if there was one.  Writing a value on a
/// write-protected node is refused.  A `Key` operation opens its child if it
/// exists (refused if the child is write-protected), creates it when absent
/// in `Create` mode (refused when the node itself is write-protected), fails
/// with `NotFound` when absent in `Open` mode, and then runs its operation
/// list against the child in declared order, keeping whatever the child
/// holds when that list fails partway.
pub open spec fn m_apply_op(n: NodeModel, op: OpModel) -> (NodeModel, Option<RegError>)
    decreases op, 0nat,
{
    match op {
        OpModel::Value { name, value } => if n.ro {
            (n, Some(RegError::PermissionDenied))
        } else {
            (m_set_value(n, name, value), None)
        },
        OpModel::Key { mode, name, operations } => if n.kids.contains_key(name) {
            if n.kids[name].ro {
                (n, Some(RegError::PermissionDenied))
            } else {
                let r = m_apply_ops(n.kids[name], operations, 0);
                (NodeModel { kids: n.kids.insert(name, r.0), ..n }, r.1)
            }
        } else {
            match mode {
                RegKeyMode::Open => (n, Some(RegError::NotFound)),
                RegKeyMode::Create => if n.ro {
                    (n, Some(RegError::PermissionDenied))
                } else {
                    let r = m_apply_ops(empty_node(), operations, 0);
                    (NodeModel { kids: n.kids.insert(name, r.0), ..n }, r.1)
                },
            }
        },
    }
}

/// Applying `ops[i..]` in declared order, stopping at the first failure.
pub open spec fn m_apply_ops(n: NodeModel, ops: Seq<OpModel>, i: int) -> (NodeModel, Option<
    RegError,
>)
    decreases ops, ops.len() - i,
{
    if i < 0 || i >= ops.len() {
        (n, None)
    } else {
        let r = m_apply_op(n, ops[i]);
        if r.1 is Some {
            r
        } else {
            m_apply_ops(r.0, ops, i + 1)
        }
    }
}

/// What rolling one operation back yields.  Every failure is swallowed: a
/// value deletion that finds nothing, or is refused by a write-protected
/// node, changes nothing; a child that cannot be opened is skipped whole.
/// An opened child is rolled back in exact reverse order, and then deleted —
/// only if this operation created it (`Create` mode), the node accepts the
/// write, and the child is empty, so that no unrelated content is destroyed.
pub open spec fn m_unapply_op(n: NodeModel, op: OpModel) -> NodeModel
    decreases op, 0nat,
{
    match op {
        OpModel::Value { name, .. } => if n.ro {
            n
        } else {
            m_del_value(n, name)
        },
        OpModel::Key { mode, name, operations } => if !n.kids.contains_key(name) {
            n
        } else if n.kids[name].ro {
            n
        } else {
            let c2 = m_unapply_ops(n.kids[name], operations, 0);
            if mode is Create && !n.ro && node_is_empty(c2) {
                NodeModel { kids: n.kids.remove(name), ..n }
            } else {
                NodeModel { kids: n.kids.insert(name, c2), ..n }
            }
        },
    }
}

/// Rolling `ops[i..]` back: the later operations first, then `ops[i]`.
pub open spec fn m_unapply_ops(n: NodeModel, ops: Seq<OpModel>, i: int) -> NodeModel
    decreases ops, ops.len() - i,
{
    if i < 0 || i >= ops.len() {
        n
    } else {
        m_unapply_op(m_unapply_ops(n, ops, i + 1), ops[i])
    }
}

/// `ops_model` is the elementwise model.
pub proof fn lemma_ops_model_index(s: Seq<RegOp>)
    ensures
        ops_model(s).len() == s.len(),
        forall|j: int| 0 <= j < s.len() ==> ops_model(s)[j] == (#[trigger] s[j]).op_model(),
    decreases s.len(),
{
    if s.len() > 0 {
        lemma_ops_model_index(s.drop_last());
        assert(s.last() == s[s.len() - 1]);
        assert forall|j: int| 0 <= j < s.len() implies ops_model(s)[j] == (
        #[trigger] s[j]).op_model() by {
            if j < s.len() - 1 {
                assert(s.drop_last()[j] == s[j]);
            }
        }
    }
}

impl RegOp {
    /// Applies this operation against a node, in place of which the node's
    /// new content is returned together with the first failure, exactly as
    /// `m_apply_op` describes.
    pub fn apply(&self, node: StoreNode) -> (r: (StoreNode, Option<RegError>))
        requires
            node.wf(),
        ensures
            r.0.wf(),
            (r.0.model(), r.1) == m_apply_op(node.model(), self.op_model()),
        decreases self,
    {
        match self {
            RegOp::Value(name, value) => {
                if node.ro {
                    (node, Some(RegError::PermissionDenied))
                } else {
                    (node.set_value(name, value), None)
                }
            },
            RegOp::Key { mode, name, operations } => {
                let ghost m0 = node.model();
                let ghost opm = self.op_model();
                let mut node = node;
                let ghost k0 = node.kids@;
                match find_kid(&node.kids, name) {
                    Some(i) => {
                        proof {
                            assert(forall|j: int|
                                i < j < k0.len() ==> (#[trigger] k0[j]).0@ != k0[i as int].0@);
                            lemma_kids_map_get(k0, i as int);
                        }
                        let pair = node.kids.remove(i);
                        let kname = pair.0;
                        let child = pair.1;
                        if child.ro {
                            node.kids.insert(i, (kname, child));
                            proof {
                                assert(node.kids@ =~= k0);
                                assert(node.model() =~= m0);
                            }
                            (node, Some(RegError::PermissionDenied))
                        } else {
                            assert(child.wf());
                            let res = apply_ops_exec(child, operations);
                            let child2 = res.0;
                            node.kids.insert(i, (kname, child2));
                            proof {
                                assert(node.kids@ =~= k0.update(i as int, (kname, child2)));
                                lemma_kids_map_update(k0, i as int, (kname, child2));
                                assert(node.model() =~= m_apply_op(m0, opm).0);
                                assert forall|a: int, b: int|
                                    0 <= a < b < node.kids@.len() implies (
                                #[trigger] node.kids@[a].0@) != (#[trigger] node.kids@[b].0@) by {
                                    assert(k0[a].0@ == node.kids@[a].0@);
                                    assert(k0[b].0@ == node.kids@[b].0@);
                                }
                                assert forall|a: int| 0 <= a < node.kids@.len() implies (
                                #[trigger] node.kids@[a].1).wf() by {
                                    if a != i as int {
                                        assert(node.kids@[a].1 == k0[a].1);
                                    }
                                }
                            }
                            (node, res.1)
                        }
                    },
                    None => {
                        proof {
                            lemma_kids_map_absent(k0, name@);
                        }
                        match mode {
                            RegKeyMode::Open => (node, Some(RegError::NotFound)),
                            RegKeyMode::Create => {
                                if node.ro {
                                    (node, Some(RegError::PermissionDenied))
                                } else {
                                    let res = apply_ops_exec(StoreNode::new(), operations);
                                    let child2 = res.0;
                                    let p = (name.dup(), child2);
                                    node.kids.push(p);
                                    proof {
                                        lemma_kids_map_push(k0, p);
                                        assert(node.model() =~= m_apply_op(m0, opm).0);
                                        assert forall|a: int, b: int|
                                            0 <= a < b < node.kids@.len() implies (
                                        #[trigger] node.kids@[a].0@) != (
                                        #[trigger] node.kids@[b].0@) by {
                                            if b < k0.len() {
                                                assert(k0[a] == node.kids@[a] && k0[b]
                                                    == node.kids@[b]);
                                            } else {
                                                assert(node.kids@[b] == p);
                                                assert(k0[a] == node.kids@[a]);
                                            }
                                        }
                                        assert forall|a: int| 0 <= a < node.kids@.len() implies (
                                        #[trigger] node.kids@[a].1).wf() by {
                                            if a < k0.len() {
                                                assert(node.kids@[a].1 == k0[a].1);
                                            }
                                        }
                                    }
                                    (node, res.1)
                                }
                            },
                        }
                    },
                }
            },
        }
    }

    /// Rolls this operation back against a node, exactly as `m_unapply_op`
    /// describes; it cannot fail.
    pub fn unapply(&self, node: StoreNode) -> (r: StoreNode)
        requires
            node.wf(),
        ensures
            r.wf(),
            r.model() == m_unapply_op(node.model(), self.op_model()),
        decreases self,
    {
        match self {
            RegOp::Value(name, _) => {
                if node.ro {
                    node
                } else {
                    node.delete_value(name)
                }
            },
            RegOp::Key { mode, name, operations } => {
                let ghost m0 = node.model();
                let ghost opm = self.op_model();
                let mut node = node;
                let ghost k0 = node.kids@;
                match find_kid(&node.kids, name) {
                    None => {
                        proof {
                            lemma_kids_map_absent(k0, name@);
                        }
                        node
                    },
                    Some(i) => {
                        proof {
                            assert(forall|j: int|
                                i < j < k0.len() ==> (#[trigger] k0[j]).0@ != k0[i as int].0@);
                            lemma_kids_map_get(k0, i as int);
                        }
                        let pair = node.kids.remove(i);
                        let kname = pair.0;
                        let child = pair.1;
                        if child.ro {
                            node.kids.insert(i, (kname, child));
                            proof {
                                assert(node.kids@ =~= k0);
                                assert(node.model() =~= m0);
                            }
                            node
                        } else {
                            assert(child.wf());
                            let child2 = unapply_ops_exec(child, operations);
                            let deletes = match mode {
                                RegKeyMode::Create => true,
                                RegKeyMode::Open => false,
                            };
                            if deletes && !node.ro && child2.is_empty() {
                                proof {
                                    assert(forall|j: int|
                                        0 <= j < k0.len() && j != i ==> (#[trigger] k0[j]).0@
                                            != k0[i as int].0@);
                                    lemma_kids_map_remove(k0, i as int);
                                    assert(node.model() =~= m_unapply_op(m0, opm));
                                    assert forall|a: int, b: int|
                                        0 <= a < b < node.kids@.len() implies (
                                    #[trigger] node.kids@[a].0@) != (#[trigger] node.kids@[b].0@) by {
                                        let a0 = if a < i as int {
                                            a
                                        } else {
                                            a + 1
                                        };
                                        let b0 = if b < i as int {
                                            b
                                        } else {
                                            b + 1
                                        };
                                        assert(k0[a0] == node.kids@[a] && k0[b0] == node.kids@[b]);
                                    }
                                    assert forall|a: int| 0 <= a < node.kids@.len() implies (
                                    #[trigger] node.kids@[a].1).wf() by {
                                        let a0 = if a < i as int {
                                            a
                                        } else {
                                            a + 1
                                        };
                                        assert(node.kids@[a].1 == k0[a0].1);
                                    }
                                }
                                node
                            } else {
                                node.kids.insert(i, (kname, child2));
                                proof {
                                    assert(node.kids@ =~= k0.update(i as int, (kname, child2)));
                                    lemma_kids_map_update(k0, i as int, (kname, child2));
                                    assert(node.model() =~= m_unapply_op(m0, opm));
                                    assert forall|a: int, b: int|
                                        0 <= a < b < node.kids@.len() implies (
                                    #[trigger] node.kids@[a].0@) != (#[trigger] node.kids@[b].0@) by {
                                        assert(k0[a].0@ == node.kids@[a].0@);
                                        assert(k0[b].0@ == node.kids@[b].0@);
                                    }
                                    assert forall|a: int| 0 <= a < node.kids@.len() implies (
                                    #[trigger] node.kids@[a].1).wf() by {
                                        if a != i as int {
                                            assert(node.kids@[a].1 == k0[a].1);
                                        }
                                    }
                                }
                                node
                            }
                        }
                    },
                }
            },
        }
    }
}

/// Applies an operation list in declared order, stopping at the first
/// failure.
#[verifier::loop_isolation(false)]
fn apply_ops_exec(node: StoreNode, ops: &Vec<RegOp>) -> (r: (StoreNode, Option<RegError>))
    requires
        node.wf(),
    ensures
        r.0.wf(),
        (r.0.model(), r.1) == m_apply_ops(node.model(), ops_model(ops@), 0),
    decreases ops,
{
    let ghost m0 = node.model();
    let ghost opsm = ops_model(ops@);
    proof {
        lemma_ops_model_index(ops@);
    }
    let mut cur = node;
    let mut j: usize = 0;
    while j < ops.len()
        invariant
            j <= ops@.len(),
            cur.wf(),
            opsm == ops_model(ops@),
            opsm.len() == ops@.len(),
            forall|t: int| 0 <= t < ops@.len() ==> opsm[t] == (#[trigger] ops@[t]).op_model(),
            m_apply_ops(m0, opsm, 0) == m_apply_ops(cur.model(), opsm, j as int),
        decreases ops@.len() - j,
    {
        let op = &ops[j];
        let ghost prev = cur.model();
        let step = op.apply(cur);
        cur = step.0;
        proof {
            assert((cur.model(), step.1) == m_apply_op(prev, opsm[j as int]));
            if step.1 is Some {
                assert(m_apply_ops(prev, opsm, j as int) == (cur.model(), step.1));
            } else {
                assert(m_apply_ops(prev, opsm, j as int) == m_apply_ops(
                    cur.model(),
                    opsm,
                    j + 1,
                ));
            }
        }
        match step.1 {
            Some(e) => {
                return (cur, Some(e));
            },
            None => {},
        }
        j = j + 1;
    }
    (cur, None)
}

/// Rolls an operation list back in exact reverse declared order.
fn unapply_ops_exec(node: StoreNode, ops: &Vec<RegOp>) -> (r: StoreNode)
    requires
        node.wf(),
    ensures
        r.wf(),
        r.model() == m_unapply_ops(node.model(), ops_model(ops@), 0),
    decreases ops,
{
    let ghost m0 = node.model();
    let ghost opsm = ops_model(ops@);
    proof {
        lemma_ops_model_index(ops@);
    }
    let mut cur = node;
    let mut j: usize = ops.len();
    while j > 0
        invariant
            j <= ops@.len(),
            cur.wf(),
            opsm == ops_model(ops@),
            opsm.len() == ops@.len(),
            forall|t: int| 0 <= t < ops@.len() ==> opsm[t] == (#[trigger] ops@[t]).op_model(),
            cur.model() == m_unapply_ops(m0, opsm, j as int),
        decreases j,
    {
        j = j - 1;
        let op = &ops[j];
        cur = op.unapply(cur);
    }
    cur
}

/// Why a store operation failed.
#[derive(Clone, Copy, PartialEq, Eq, Structural, Debug)]
pub enum RegError {
    /// An `Open`-mode target is absent.
    NotFound,
    /// The node refuses the write.
    PermissionDenied,
    /// A node deletion was blocked because the node still holds content.
    NotEmpty,
}

/// The numeric status code of a failure, following the store's conventional
/// codes; zero stands for success and is never a failure's code.
pub open spec fn err_code(e: RegError) -> u32 {
    match e {
        RegError::NotFound => 2u32,
        RegError::PermissionDenied => 5u32,
        RegError::NotEmpty => 145u32,
    }
}

impl RegError {
    /// The numeric status code of this failure; never zero.
    pub fn code(&self) -> (r: u32)
        ensures
            r == err_code(*self),
            r != 0,
    {
        match self {
            RegError::NotFound => 2,
            RegError::PermissionDenied => 5,
            RegError::NotEmpty => 145,
        }
    }
}

impl RegBatch {
    /// Applies the batch against a root node, in declared order, stopping at
    /// the first failure and returning it; what was already written stays.
    pub fn apply(&self, store: StoreNode) -> (r: (StoreNode, Option<RegError>))
        requires
            store.wf(),
        ensures
            r.0.wf(),
            (r.0.model(), r.1) == m_apply_ops(store.model(), self.batch_model(), 0),
    {
        apply_ops_exec(store, &self.operations)
    }

    /// Rolls the batch back against a root node, in exact reverse declared
    /// order; it cannot fail, whether or not the batch was ever applied.
    pub fn unapply(&self, store: StoreNode) -> (r: StoreNode)
        requires
            store.wf(),
        ensures
            r.wf(),
            r.model() == m_unapply_ops(store.model(), self.batch_model(), 0),
    {
        unapply_ops_exec(store, &self.operations)
    }
}

/// Installs a batch: applies it, and on failure rolls the same batch back
/// and reports the failure's numeric code; on success reports zero.
pub fn register(batch: &RegBatch, store: StoreNode) -> (r: (StoreNode, u32))
    requires
        store.wf(),
    ensures
        r.0.wf(),
        ({
            let ar = m_apply_ops(store.model(), batch.batch_model(), 0);
            match ar.1 {
                None => r.0.model() == ar.0 && r.1 == 0,
                Some(e) => r.0.model() == m_unapply_ops(ar.0, batch.batch_model(), 0) && r.1
                    == err_code(e) && r.1 != 0,
            }
        }),
{
    let res = batch.apply(store);
    match res.1 {
        None => (res.0, 0),
        Some(e) => {
            let s2 = batch.unapply(res.0);
            (s2, e.code())
        },
    }
}

/// The operations of the component-registration batch: a class entry under
/// the machine-wide class root, carrying a factory name and a server
/// location with its threading model; a drag-and-drop handler entry under
/// the shell-integration path; and one named value added to the
/// pre-existing approved-extensions list, which is opened, never created.
pub open spec fn registration_ops(server_path: Seq<u16>) -> Seq<OpModel> {
    seq![
        OpModel::Key {
            mode: RegKeyMode::Create,
            name: wide_lit("SOFTWARE\\Classes\\CLSID\\{96D16936-E510-4EA4-8EE8-BC9C0BD7057B}"@),
            operations: seq![
                OpModel::Value {
                    name: None,
                    value: ValueModel::Sz(wide_lit("Drop for Symlink Factory"@)),
                },
                OpModel::Key {
                    mode: RegKeyMode::Create,
                    name: wide_lit("InProcServer32"@),
                    operations: seq![
                        OpModel::Value { name: None, value: ValueModel::Sz(server_path) },
                        OpModel::Value {
                            name: Some(wide_lit("ThreadingModel"@)),
                            value: ValueModel::Sz(wide_lit("Apartment"@)),
                        },
                    ],
                },
            ],
        },
        OpModel::Key {
            mode: RegKeyMode::Create,
            name: wide_lit(
                "SOFTWARE\\Classes\\Directory\\ShellEx\\DragDropHandlers\\Drop for Symlink"@,
            ),
            operations: seq![
                OpModel::Value {
                    name: None,
                    value: ValueModel::Sz(
                        wide_lit("{96D16936-E510-4EA4-8EE8-BC9C0BD7057B}"@),
                    ),
                },
            ],
        },
        OpModel::Key {
            mode: RegKeyMode::Open,
            name: wide_lit(
                "SOFTWARE\\Microsoft\\Windows\\CurrentVersion\\Shell Extensions\\Approved"@,
            ),
            operations: seq![
                OpModel::Value {
                    name: Some(wide_lit("{96D16936-E510-4EA4-8EE8-BC9C0BD7057B}"@)),
                    value: ValueModel::Sz(wide_lit("Drop for Symlink"@)),
                },
            ],
        },
    ]
}

/// Builds the component-registration batch against a given server location.
/// Each call builds a fresh, structurally identical tree, so the same batch
/// can be built once for apply and once again for rollback.
pub fn registry_batch(server_path: &WinStr) -> (r: RegBatch)
    ensures
        r.batch_model() == registration_ops(server_path@),
        wf_ops(r.batch_model()),
{
    let ghost target = registration_ops(server_path@);
    let mut server_ops: Vec<RegOp> = Vec::new();
    server_ops.push(RegOp::Value(None, RegValue::Sz(server_path.dup())));
    server_ops.push(
        RegOp::Value(Some(WinStr::from_str("ThreadingModel")), RegValue::of_str("Apartment")),
    );
    let ghost sv = server_ops@;
    proof {
        lemma_ops_model_index(sv);
        assert(sv[0].op_model() == (OpModel::Value {
            name: None,
            value: ValueModel::Sz(server_path@),
        }));
        assert(sv[1].op_model() == (OpModel::Value {
            name: Some(wide_lit("ThreadingModel"@)),
            value: ValueModel::Sz(wide_lit("Apartment"@)),
        }));
        assert(ops_model(sv) =~~= target[0]->operations[1]->operations);
    }
    let mut clsid_ops: Vec<RegOp> = Vec::new();
    clsid_ops.push(RegOp::Value(None, RegValue::of_str("Drop for Symlink Factory")));
    clsid_ops.push(
        RegOp::Key {
            mode: RegKeyMode::Create,
            name: WinStr::from_str("InProcServer32"),
            operations: server_ops,
        },
    );
    let ghost cl = clsid_ops@;
    proof {
        lemma_ops_model_index(cl);
        assert(cl[0].op_model() == (OpModel::Value {
            name: None,
            value: ValueModel::Sz(wide_lit("Drop for Symlink Factory"@)),
        }));
        assert(cl[1].op_model() == (OpModel::Key {
            mode: RegKeyMode::Create,
            name: wide_lit("InProcServer32"@),
            operations: ops_model(sv),
        }));
        assert(cl[0].op_model() =~~= target[0]->operations[0]);
        assert(cl[1].op_model() =~~= target[0]->operations[1]);
        assert(ops_model(cl) =~~= target[0]->operations);
    }
    let mut handler_ops: Vec<RegOp> = Vec::new();
    handler_ops.push(
        RegOp::Value(None, RegValue::of_str("{96D16936-E510-4EA4-8EE8-BC9C0BD7057B}")),
    );
    let ghost ha = handler_ops@;
    proof {
        lemma_ops_model_index(ha);
        assert(ha[0].op_model() =~~= target[1]->operations[0]);
        assert(ops_model(ha) =~~= target[1]->operations);
    }
    let mut approved_ops: Vec<RegOp> = Vec::new();
    approved_ops.push(
        RegOp::Value(
            Some(WinStr::from_str("{96D16936-E510-4EA4-8EE8-BC9C0BD7057B}")),
            RegValue::of_str("Drop for Symlink"),
        ),
    );
    let ghost ap = approved_ops@;
    proof {
        lemma_ops_model_index(ap);
        assert(ap[0].op_model() =~~= target[2]->operations[0]);
        assert(ops_model(ap) =~~= target[2]->operations);
    }
    let clsid_name = WinStr::from_str(
        "SOFTWARE\\Classes\\CLSID\\{96D16936-E510-4EA4-8EE8-BC9C0BD7057B}",
    );
    let handler_name = WinStr::from_str(
        "SOFTWARE\\Classes\\Directory\\ShellEx\\DragDropHandlers\\Drop for Symlink",
    );
    let approved_name = WinStr::from_str(
        "SOFTWARE\\Microsoft\\Windows\\CurrentVersion\\Shell Extensions\\Approved",
    );
    let ghost l1 = "SOFTWARE\\Classes\\CLSID\\{96D16936-E510-4EA4-8EE8-BC9C0BD7057B}"@;
    let ghost l2 = "SOFTWARE\\Classes\\Directory\\ShellEx\\DragDropHandlers\\Drop for Symlink"@;
    let ghost l3 = "SOFTWARE\\Microsoft\\Windows\\CurrentVersion\\Shell Extensions\\Approved"@;
    proof {
        reveal_strlit("SOFTWARE\\Classes\\CLSID\\{96D16936-E510-4EA4-8EE8-BC9C0BD7057B}");
        reveal_strlit("SOFTWARE\\Classes\\Directory\\ShellEx\\DragDropHandlers\\Drop for Symlink");
        reveal_strlit("SOFTWARE\\Microsoft\\Windows\\CurrentVersion\\Shell Extensions\\Approved");
        assert(l1.len() != l2.len() && l1.len() != l3.len() && l2.len() != l3.len());
        assert(wide_lit(l2) != wide_lit(l1)) by {
            if wide_lit(l2) == clsid_name@ {
                assert(l2 == l1);
            }
        }
        assert(wide_lit(l3) != wide_lit(l1)) by {
            if wide_lit(l3) == clsid_name@ {
                assert(l3 == l1);
            }
        }
        assert(wide_lit(l3) != wide_lit(l2)) by {
            if wide_lit(l3) == handler_name@ {
                assert(l3 == l2);
            }
        }
    }
    let mut operations: Vec<RegOp> = Vec::new();
    operations.push(
        RegOp::Key { mode: RegKeyMode::Create, name: clsid_name, operations: clsid_ops },
    );
    operations.push(
        RegOp::Key { mode: RegKeyMode::Create, name: handler_name, operations: handler_ops },
    );
    operations.push(
        RegOp::Key { mode: RegKeyMode::Open, name: approved_name, operations: approved_ops },
    );
    let r = RegBatch { operations };
    proof {
        lemma_ops_model_index(r.operations@);
        assert(r.operations@[0].op_model() == (OpModel::Key {
            mode: RegKeyMode::Create,
            name: wide_lit("SOFTWARE\\Classes\\CLSID\\{96D16936-E510-4EA4-8EE8-BC9C0BD7057B}"@),
            operations: ops_model(cl),
        }));
        assert(r.operations@[1].op_model() == (OpModel::Key {
            mode: RegKeyMode::Create,
            name: wide_lit(
                "SOFTWARE\\Classes\\Directory\\ShellEx\\DragDropHandlers\\Drop for Symlink"@,
            ),
            operations: ops_model(ha),
        }));
        assert(r.operations@[2].op_model() == (OpModel::Key {
            mode: RegKeyMode::Open,
            name: wide_lit("SOFTWARE\\Microsoft\\Windows\\CurrentVersion\\Shell Extensions\\Approved"@),
            operations: ops_model(ap),
        }));
        assert(r.batch_model()[0] =~~= target[0]);
        assert(r.batch_model()[1] =~~= target[1]);
        assert(r.batch_model()[2] =~~= target[2]);
        assert(r.batch_model() =~~= target);
        // sibling-distinct at every level: the three top-level names differ,
        // and deeper siblings differ in kind or in named-versus-default slot
        let tss = target[0]->operations[1]->operations;
        assert(wf_ops(tss)) by {
            assert forall|a: int, b: int| 0 <= a < b < tss.len() implies !same_slot(
                #[trigger] tss[a],
                #[trigger] tss[b],
            ) by {
                assert(!same_slot(tss[0], tss[1]));
            }
            assert forall|a: int| 0 <= a < tss.len() implies wf_op(#[trigger] tss[a]) by {
                assert(wf_op(tss[0]));
                assert(wf_op(tss[1]));
            }
        }
        let ts = target[0]->operations;
        assert(wf_ops(ts)) by {
            assert forall|a: int, b: int| 0 <= a < b < ts.len() implies !same_slot(
                #[trigger] ts[a],
                #[trigger] ts[b],
            ) by {
                assert(!same_slot(ts[0], ts[1]));
            }
            assert forall|a: int| 0 <= a < ts.len() implies wf_op(#[trigger] ts[a]) by {
                assert(wf_op(ts[0]));
                assert(wf_op(ts[1]));
            }
        }
        let th = target[1]->operations;
        assert(wf_ops(th)) by {
            assert forall|a: int| 0 <= a < th.len() implies wf_op(#[trigger] th[a]) by {
                assert(wf_op(th[0]));
            }
        }
        let ta = target[2]->operations;
        assert(wf_ops(ta)) by {
            assert forall|a: int| 0 <= a < ta.len() implies wf_op(#[trigger] ta[a]) by {
                assert(wf_op(ta[0]));
            }
        }
        assert(wf_ops(target)) by {
            assert forall|a: int, b: int| 0 <= a < b < target.len() implies !same_slot(
                #[trigger] target[a],
                #[trigger] target[b],
            ) by {
                assert(!same_slot(target[0], target[1]));
                assert(!same_slot(target[0], target[2]));
                assert(!same_slot(target[1], target[2]));
            }
            assert forall|a: int| 0 <= a < target.len() implies wf_op(#[trigger] target[a]) by {
                assert(wf_op(target[0]));
                assert(wf_op(target[1]));
                assert(wf_op(target[2]));
            }
        }
    }
    r
}

/// Uninstalls a batch: rolls it back unconditionally and reports success,
/// however much of it was ever applied.
pub fn unregister(batch: &RegBatch, store: StoreNode) -> (r: (StoreNode, u32))
    requires
        store.wf(),
    ensures
        r.0.wf(),
        r.0.model() == m_unapply_ops(store.model(), batch.batch_model(), 0),
        r.1 == 0,
{
    (batch.unapply(store), 0)
}

} // verus!
