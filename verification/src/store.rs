//! The hierarchical store: a tree of nodes, each holding one optional
//! unnamed (default) value, named values, and named child nodes.
//!
//! The store plays the part of the persistent configuration registry the
//! batch engine mutates.  A node can be marked write-protected, which makes
//! the operations that need write access to it fail with a permission error,
//! the way an access-controlled branch of a real store would.

use vstd::prelude::*;

use crate::registry::RegValue;
use crate::registry::val_model;
use crate::winstr::WinStr;
use crate::winstr::wide_eq;

verus! {

/// The mathematical value a node's scalar value stands for.
#[verifier::ext_equal]
pub ghost enum ValueModel {
    /// A text value, as its UTF-16 code units.
    Sz(Seq<u16>),
}

/// The mathematical content of a store node.
#[verifier::ext_equal]
pub ghost struct NodeModel {
    /// Whether the node refuses writes.
    pub ro: bool,
    /// The unnamed (default) value, if set.
    pub def: Option<ValueModel>,
    /// The named values.
    pub vals: Map<Seq<u16>, ValueModel>,
    /// The named child nodes.
    pub kids: Map<Seq<u16>, NodeModel>,
}

/// The content of a node that was just created: writable and empty.
pub open spec fn empty_node() -> NodeModel {
    NodeModel { ro: false, def: None, vals: Map::empty(), kids: Map::empty() }
}

/// Whether a node holds nothing: no default value, no named values, no
/// children.  Only such a node may be deleted.
pub open spec fn node_is_empty(n: NodeModel) -> bool {
    n.def is None && n.vals =~= Map::empty() && n.kids =~= Map::empty()
}

/// Writing a value: the unnamed slot if `name` is `None`, else the named slot.
pub open spec fn m_set_value(n: NodeModel, name: Option<Seq<u16>>, v: ValueModel) -> NodeModel {
    match name {
        None => NodeModel { def: Some(v), ..n },
        Some(k) => NodeModel { vals: n.vals.insert(k, v), ..n },
    }
}

/// Deleting a value; deleting an absent value changes nothing.
pub open spec fn m_del_value(n: NodeModel, name: Option<Seq<u16>>) -> NodeModel {
    match name {
        None => NodeModel { def: None, ..n },
        Some(k) => NodeModel { vals: n.vals.remove(k), ..n },
    }
}

/// The value under a (possibly absent) name, if any.
pub open spec fn val_slot(n: NodeModel, name: Option<Seq<u16>>) -> Option<ValueModel> {
    match name {
        None => n.def,
        Some(k) => if n.vals.contains_key(k) {
            Some(n.vals[k])
        } else {
            None
        },
    }
}

/// A store node.  Named values and children are kept as association lists
/// whose keys are distinct (see `wf`), which the node's model reads as maps.
pub struct StoreNode {
    /// Whether the node refuses writes.
    pub ro: bool,
    /// The unnamed (default) value, if set.
    pub def: Option<RegValue>,
    /// The named values.
    pub vals: Vec<(WinStr, RegValue)>,
    /// The named child nodes.
    pub kids: Vec<(WinStr, StoreNode)>,
}

/// The map a value association list stands for; a later entry with the same
/// key would win, though well-formed nodes hold no duplicate keys.
pub open spec fn vals_map(s: Seq<(WinStr, RegValue)>) -> Map<Seq<u16>, ValueModel>
    decreases s.len(),
{
    if s.len() == 0 {
        Map::empty()
    } else {
        vals_map(s.drop_last()).insert(s.last().0@, val_model(s.last().1))
    }
}

/// The map a child association list stands for.
pub open spec fn kids_map(s: Seq<(WinStr, StoreNode)>) -> Map<Seq<u16>, NodeModel>
    decreases s,
{
    if s.len() == 0 {
        Map::empty()
    } else {
        kids_map(s.drop_last()).insert(s.last().0@, s.last().1.model())
    }
}

impl StoreNode {
    /// The mathematical content of this node and its subtree.
    pub open spec fn model(&self) -> NodeModel
        decreases self,
    {
        NodeModel {
            ro: self.ro,
            def: match self.def {
                None => None,
                Some(v) => Some(val_model(v)),
            },
            vals: vals_map(self.vals@),
            kids: kids_map(self.kids@),
        }
    }

    /// Well-formed: value names and child names are distinct at this node,
    /// recursively in every child.
    pub open spec fn wf(&self) -> bool
        decreases self,
    {
        &&& forall|i: int, j: int|
            0 <= i < j < self.vals@.len() ==> #[trigger] self.vals@[i].0@ != #[trigger] self.vals@[j].0@
        &&& forall|i: int, j: int|
            0 <= i < j < self.kids@.len() ==> #[trigger] self.kids@[i].0@ != #[trigger] self.kids@[j].0@
        &&& forall|i: int| 0 <= i < self.kids@.len() ==> (#[trigger] self.kids@[i].1).wf()
    }
}

/// The name a value operation addresses, as the model sees it.
pub open spec fn name_model(n: Option<WinStr>) -> Option<Seq<u16>> {
    match n {
        None => None,
        Some(s) => Some(s@),
    }
}

proof fn lemma_vals_map_get(s: Seq<(WinStr, RegValue)>, i: int)
    requires
        0 <= i < s.len(),
        forall|j: int| i < j < s.len() ==> (#[trigger] s[j]).0@ != s[i].0@,
    ensures
        vals_map(s).contains_key(s[i].0@),
        vals_map(s)[s[i].0@] == val_model(s[i].1),
    decreases s.len(),
{
    if i < s.len() - 1 {
        assert(forall|j: int|
            i < j < s.drop_last().len() ==> (#[trigger] s.drop_last()[j]).0@ != s.drop_last()[i].0@);
        lemma_vals_map_get(s.drop_last(), i);
        assert(s.drop_last()[i] == s[i]);
        assert(s.last() == s[s.len() - 1]);
    }
}

proof fn lemma_vals_map_absent(s: Seq<(WinStr, RegValue)>, k: Seq<u16>)
    requires
        forall|j: int| 0 <= j < s.len() ==> (#[trigger] s[j]).0@ != k,
    ensures
        !vals_map(s).contains_key(k),
    decreases s.len(),
{
    if s.len() > 0 {
        lemma_vals_map_absent(s.drop_last(), k);
        assert(s.last() == s[s.len() - 1]);
    }
}

proof fn lemma_vals_map_update(s: Seq<(WinStr, RegValue)>, i: int, p: (WinStr, RegValue))
    requires
        0 <= i < s.len(),
        p.0@ == s[i].0@,
        forall|j: int| i < j < s.len() ==> (#[trigger] s[j]).0@ != s[i].0@,
    ensures
        vals_map(s.update(i, p)) =~= vals_map(s).insert(p.0@, val_model(p.1)),
    decreases s.len(),
{
    if i == s.len() - 1 {
        assert(s.update(i, p).drop_last() =~= s.drop_last());
        assert(s.update(i, p).last() == p);
    } else {
        assert(s.update(i, p).drop_last() =~= s.drop_last().update(i, p));
        assert(forall|j: int|
            i < j < s.drop_last().len() ==> (#[trigger] s.drop_last()[j]).0@ != s.drop_last()[i].0@);
        lemma_vals_map_update(s.drop_last(), i, p);
        assert(s.update(i, p).last() == s.last());
        assert(s.last() == s[s.len() - 1]);
    }
}

proof fn lemma_vals_map_push(s: Seq<(WinStr, RegValue)>, p: (WinStr, RegValue))
    ensures
        vals_map(s.push(p)) == vals_map(s).insert(p.0@, val_model(p.1)),
{
    assert(s.push(p).drop_last() =~= s);
    assert(s.push(p).last() == p);
}

proof fn lemma_vals_map_remove(s: Seq<(WinStr, RegValue)>, i: int)
    requires
        0 <= i < s.len(),
        forall|j: int| 0 <= j < s.len() && j != i ==> (#[trigger] s[j]).0@ != s[i].0@,
    ensures
        vals_map(s.remove(i)) =~= vals_map(s).remove(s[i].0@),
    decreases s.len(),
{
    if i == s.len() - 1 {
        assert(s.remove(i) =~= s.drop_last());
        assert(forall|j: int|
            0 <= j < s.drop_last().len() ==> (#[trigger] s.drop_last()[j]).0@ != s[i].0@);
        lemma_vals_map_absent(s.drop_last(), s[i].0@);
    } else {
        assert(s.remove(i).drop_last() =~= s.drop_last().remove(i));
        assert(forall|j: int|
            0 <= j < s.drop_last().len() && j != i ==> (#[trigger] s.drop_last()[j]).0@
                != s.drop_last()[i].0@);
        lemma_vals_map_remove(s.drop_last(), i);
        assert(s.remove(i).last() == s.last());
        assert(s.last() == s[s.len() - 1]);
    }
}

pub(crate) proof fn lemma_kids_map_get(s: Seq<(WinStr, StoreNode)>, i: int)
    requires
        0 <= i < s.len(),
        forall|j: int| i < j < s.len() ==> (#[trigger] s[j]).0@ != s[i].0@,
    ensures
        kids_map(s).contains_key(s[i].0@),
        kids_map(s)[s[i].0@] == s[i].1.model(),
    decreases s.len(),
{
    if i < s.len() - 1 {
        assert(forall|j: int|
            i < j < s.drop_last().len() ==> (#[trigger] s.drop_last()[j]).0@ != s.drop_last()[i].0@);
        lemma_kids_map_get(s.drop_last(), i);
        assert(s.drop_last()[i] == s[i]);
        assert(s.last() == s[s.len() - 1]);
    }
}

pub(crate) proof fn lemma_kids_map_absent(s: Seq<(WinStr, StoreNode)>, k: Seq<u16>)
    requires
        forall|j: int| 0 <= j < s.len() ==> (#[trigger] s[j]).0@ != k,
    ensures
        !kids_map(s).contains_key(k),
    decreases s.len(),
{
    if s.len() > 0 {
        lemma_kids_map_absent(s.drop_last(), k);
        assert(s.last() == s[s.len() - 1]);
    }
}

pub(crate) proof fn lemma_kids_map_update(s: Seq<(WinStr, StoreNode)>, i: int, p: (WinStr, StoreNode))
    requires
        0 <= i < s.len(),
        p.0@ == s[i].0@,
        forall|j: int| i < j < s.len() ==> (#[trigger] s[j]).0@ != s[i].0@,
    ensures
        kids_map(s.update(i, p)) =~= kids_map(s).insert(p.0@, p.1.model()),
    decreases s.len(),
{
    if i == s.len() - 1 {
        assert(s.update(i, p).drop_last() =~= s.drop_last());
        assert(s.update(i, p).last() == p);
    } else {
        assert(s.update(i, p).drop_last() =~= s.drop_last().update(i, p));
        assert(forall|j: int|
            i < j < s.drop_last().len() ==> (#[trigger] s.drop_last()[j]).0@ != s.drop_last()[i].0@);
        lemma_kids_map_update(s.drop_last(), i, p);
        assert(s.update(i, p).last() == s.last());
        assert(s.last() == s[s.len() - 1]);
    }
}

pub(crate) proof fn lemma_kids_map_push(s: Seq<(WinStr, StoreNode)>, p: (WinStr, StoreNode))
    ensures
        kids_map(s.push(p)) == kids_map(s).insert(p.0@, p.1.model()),
{
    assert(s.push(p).drop_last() =~= s);
    assert(s.push(p).last() == p);
}

pub(crate) proof fn lemma_kids_map_remove(s: Seq<(WinStr, StoreNode)>, i: int)
    requires
        0 <= i < s.len(),
        forall|j: int| 0 <= j < s.len() && j != i ==> (#[trigger] s[j]).0@ != s[i].0@,
    ensures
        kids_map(s.remove(i)) =~= kids_map(s).remove(s[i].0@),
    decreases s.len(),
{
    if i == s.len() - 1 {
        assert(s.remove(i) =~= s.drop_last());
        assert(forall|j: int|
            0 <= j < s.drop_last().len() ==> (#[trigger] s.drop_last()[j]).0@ != s[i].0@);
        lemma_kids_map_absent(s.drop_last(), s[i].0@);
    } else {
        assert(s.remove(i).drop_last() =~= s.drop_last().remove(i));
        assert(forall|j: int|
            0 <= j < s.drop_last().len() && j != i ==> (#[trigger] s.drop_last()[j]).0@
                != s.drop_last()[i].0@);
        lemma_kids_map_remove(s.drop_last(), i);
        assert(s.remove(i).last() == s.last());
        assert(s.last() == s[s.len() - 1]);
    }
}

/// An index whose entry carries the given name, if the list has one.
pub(crate) fn find_val(vals: &Vec<(WinStr, RegValue)>, name: &WinStr) -> (r: Option<usize>)
    ensures
        match r {
            Some(i) => i < vals@.len() && vals@[i as int].0@ == name@,
            None => forall|j: int| 0 <= j < vals@.len() ==> (#[trigger] vals@[j]).0@ != name@,
        },
{
    let mut i: usize = 0;
    while i < vals.len()
        invariant
            i <= vals@.len(),
            forall|j: int| 0 <= j < i ==> (#[trigger] vals@[j]).0@ != name@,
        decreases vals@.len() - i,
    {
        if wide_eq(&vals[i].0, name) {
            return Some(i);
        }
        i = i + 1;
    }
    None
}

/// An index whose entry carries the given name, if the list has one.
pub(crate) fn find_kid(kids: &Vec<(WinStr, StoreNode)>, name: &WinStr) -> (r: Option<usize>)
    ensures
        match r {
            Some(i) => i < kids@.len() && kids@[i as int].0@ == name@,
            None => forall|j: int| 0 <= j < kids@.len() ==> (#[trigger] kids@[j]).0@ != name@,
        },
{
    let mut i: usize = 0;
    while i < kids.len()
        invariant
            i <= kids@.len(),
            forall|j: int| 0 <= j < i ==> (#[trigger] kids@[j]).0@ != name@,
        decreases kids@.len() - i,
    {
        if wide_eq(&kids[i].0, name) {
            return Some(i);
        }
        i = i + 1;
    }
    None
}

impl StoreNode {
    /// A fresh, empty, writable node, as a store starts out.
    pub fn new() -> (r: StoreNode)
        ensures
            r.wf(),
            r.model() == empty_node(),
    {
        let r = StoreNode { ro: false, def: None, vals: Vec::new(), kids: Vec::new() };
        proof {
            assert(r.model() =~= empty_node());
        }
        r
    }

    /// The same node marked write-protected, to stand for a branch the
    /// caller has no right to change.
    pub fn with_readonly(self) -> (r: StoreNode)
        requires
            self.wf(),
        ensures
            r.wf(),
            r.model() == (NodeModel { ro: true, ..self.model() }),
    {
        let mut s = self;
        s.ro = true;
        s
    }

    /// Writes a value: into the unnamed slot if `name` is `None`, else under
    /// the name, replacing what the slot held.
    pub fn set_value(self, name: &Option<WinStr>, value: &RegValue) -> (r: StoreNode)
        requires
            self.wf(),
        ensures
            r.wf(),
            r.model() == m_set_value(self.model(), name_model(*name), val_model(*value)),
    {
        let ghost m0 = self.model();
        let mut s = self;
        match name {
            None => {
                s.def = Some(value.dup());
                proof {
                    assert(s.model() =~= m_set_value(m0, None, val_model(*value)));
                }
            },
            Some(nm) => {
                let ghost v0 = s.vals@;
                match find_val(&s.vals, nm) {
                    Some(i) => {
                        let p = (nm.dup(), value.dup());
                        let _old = s.vals.remove(i);
                        s.vals.insert(i, p);
                        proof {
                            assert(s.vals@ =~= v0.update(i as int, p));
                            lemma_vals_map_update(v0, i as int, p);
                            assert(s.model() =~= m_set_value(m0, Some(nm@), val_model(*value)));
                        }
                    },
                    None => {
                        let p = (nm.dup(), value.dup());
                        s.vals.push(p);
                        proof {
                            lemma_vals_map_push(v0, p);
                            assert(s.model() =~= m_set_value(m0, Some(nm@), val_model(*value)));
                            assert forall|i: int, j: int| 0 <= i < j < s.vals@.len() implies (
                            #[trigger] s.vals@[i].0@) != (#[trigger] s.vals@[j].0@) by {
                                if j < v0.len() {
                                    assert(v0[i] == s.vals@[i] && v0[j] == s.vals@[j]);
                                } else {
                                    assert(s.vals@[j] == p);
                                    assert(v0[i] == s.vals@[i]);
                                }
                            }
                        }
                    },
                }
            },
        }
        s
    }

    /// Deletes a value; deleting an absent value changes nothing.
    pub fn delete_value(self, name: &Option<WinStr>) -> (r: StoreNode)
        requires
            self.wf(),
        ensures
            r.wf(),
            r.model() == m_del_value(self.model(), name_model(*name)),
    {
        let ghost m0 = self.model();
        let mut s = self;
        match name {
            None => {
                s.def = None;
                proof {
                    assert(s.model() =~= m_del_value(m0, None));
                }
            },
            Some(nm) => {
                let ghost v0 = s.vals@;
                match find_val(&s.vals, nm) {
                    Some(i) => {
                        let _old = s.vals.remove(i);
                        proof {
                            lemma_vals_map_remove(v0, i as int);
                            assert(s.model() =~= m_del_value(m0, Some(nm@)));
                            assert forall|a: int, b: int| 0 <= a < b < s.vals@.len() implies (
                            #[trigger] s.vals@[a].0@) != (#[trigger] s.vals@[b].0@) by {
                                let a0 = if a < i as int {
                                    a
                                } else {
                                    a + 1
                                };
                                let b0 = if b < i as int {
                                    b
                                } else {
                                    b + 1
                                };
                                assert(v0[a0] == s.vals@[a] && v0[b0] == s.vals@[b]);
                            }
                        }
                    },
                    None => {
                        proof {
                            lemma_vals_map_absent(v0, nm@);
                            assert(m0.vals.remove(nm@) =~= m0.vals);
                            assert(s.model() =~= m_del_value(m0, Some(nm@)));
                        }
                    },
                }
            },
        }
        s
    }

    /// Installs a child node under a name, replacing any child of that name.
    pub fn set_child(self, name: &WinStr, child: StoreNode) -> (r: StoreNode)
        requires
            self.wf(),
            child.wf(),
        ensures
            r.wf(),
            r.model() == (NodeModel {
                kids: self.model().kids.insert(name@, child.model()),
                ..self.model()
            }),
    {
        let ghost m0 = self.model();
        let ghost cm = child.model();
        let mut s = self;
        let ghost k0 = s.kids@;
        match find_kid(&s.kids, name) {
            Some(i) => {
                let p = (name.dup(), child);
                let _old = s.kids.remove(i);
                s.kids.insert(i, p);
                proof {
                    assert(s.kids@ =~= k0.update(i as int, p));
                    lemma_kids_map_update(k0, i as int, p);
                    assert(s.model() =~= NodeModel { kids: m0.kids.insert(name@, cm), ..m0 });
                }
            },
            None => {
                let p = (name.dup(), child);
                s.kids.push(p);
                proof {
                    lemma_kids_map_push(k0, p);
                    assert(s.model() =~= NodeModel { kids: m0.kids.insert(name@, cm), ..m0 });
                    assert forall|a: int, b: int| 0 <= a < b < s.kids@.len() implies (
                    #[trigger] s.kids@[a].0@) != (#[trigger] s.kids@[b].0@) by {
                        if b < k0.len() {
                            assert(k0[a] == s.kids@[a] && k0[b] == s.kids@[b]);
                        } else {
                            assert(s.kids@[b] == p);
                            assert(k0[a] == s.kids@[a]);
                        }
                    }
                }
            },
        }
        s
    }

    /// Whether a child of this name exists.
    pub fn has_child(&self, name: &WinStr) -> (r: bool)
        requires
            self.wf(),
        ensures
            r == self.model().kids.contains_key(name@),
    {
        match find_kid(&self.kids, name) {
            Some(i) => {
                proof {
                    lemma_kids_map_get(self.kids@, i as int);
                }
                true
            },
            None => {
                proof {
                    lemma_kids_map_absent(self.kids@, name@);
                }
                false
            },
        }
    }

    /// The child of this name, if any.
    pub fn child(&self, name: &WinStr) -> (r: Option<&StoreNode>)
        requires
            self.wf(),
        ensures
            match r {
                Some(c) => self.model().kids.contains_key(name@) && c.model()
                    == self.model().kids[name@] && c.wf(),
                None => !self.model().kids.contains_key(name@),
            },
    {
        match find_kid(&self.kids, name) {
            Some(i) => {
                proof {
                    lemma_kids_map_get(self.kids@, i as int);
                }
                Some(&self.kids[i].1)
            },
            None => {
                proof {
                    lemma_kids_map_absent(self.kids@, name@);
                }
                None
            },
        }
    }

    /// Whether the slot holds a value.
    pub fn has_value(&self, name: &Option<WinStr>) -> (r: bool)
        requires
            self.wf(),
        ensures
            r == (val_slot(self.model(), name_model(*name)) matches Some(_)),
    {
        match name {
            None => match &self.def {
                Some(_) => true,
                None => false,
            },
            Some(nm) => match find_val(&self.vals, nm) {
                Some(i) => {
                    proof {
                        lemma_vals_map_get(self.vals@, i as int);
                    }
                    true
                },
                None => {
                    proof {
                        lemma_vals_map_absent(self.vals@, nm@);
                    }
                    false
                },
            },
        }
    }

    /// Whether the slot holds exactly this text.
    pub fn value_is_text(&self, name: &Option<WinStr>, text: &WinStr) -> (r: bool)
        requires
            self.wf(),
        ensures
            r == (val_slot(self.model(), name_model(*name)) == Some(ValueModel::Sz(text@))),
    {
        match name {
            None => match &self.def {
                Some(RegValue::Sz(s)) => wide_eq(s, text),
                None => false,
            },
            Some(nm) => match find_val(&self.vals, nm) {
                Some(i) => {
                    proof {
                        lemma_vals_map_get(self.vals@, i as int);
                    }
                    match &self.vals[i].1 {
                        RegValue::Sz(s) => wide_eq(s, text),
                    }
                },
                None => {
                    proof {
                        lemma_vals_map_absent(self.vals@, nm@);
                    }
                    false
                },
            },
        }
    }

    /// Whether the node holds nothing at all.
    pub fn is_empty(&self) -> (r: bool)
        requires
            self.wf(),
        ensures
            r == node_is_empty(self.model()),
    {
        let r = match &self.def {
            None => self.vals.len() == 0 && self.kids.len() == 0,
            Some(_) => false,
        };
        proof {
            if self.vals@.len() > 0 {
                lemma_vals_map_get(self.vals@, self.vals@.len() - 1);
            }
            if self.kids@.len() > 0 {
                lemma_kids_map_get(self.kids@, self.kids@.len() - 1);
            }
        }
        r
    }
}

} // verus!
