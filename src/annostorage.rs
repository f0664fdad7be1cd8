//! Node annotations: which annotations each node carries, in order of
//! registration, with searches by key and value.

use vstd::prelude::*;
use crate::types::{Annotation, Match, NodeID, StringID};

verus! {

/// An entry `(node, annotation)` of the store.
pub type AnnoEntry = (NodeID, Annotation);

/// The annotations of `node` among `e`, in order.
pub open spec fn annos_of(e: Seq<AnnoEntry>, node: NodeID) -> Seq<Annotation>
    decreases e.len(),
{
    if e.len() == 0 {
        Seq::empty()
    } else {
        let rest = annos_of(e.drop_last(), node);
        if e.last().0 == node {
            rest.push(e.last().1)
        } else {
            rest
        }
    }
}

/// An annotation has name `name`, namespace `ns` (any namespace when `None`)
/// and value `val` (any value when `None`).
pub open spec fn anno_matches(
    a: Annotation,
    ns: Option<StringID>,
    name: StringID,
    val: Option<StringID>,
) -> bool {
    &&& a.key.name == name
    &&& (ns matches Some(n) ==> a.key.ns == n)
    &&& (val matches Some(v) ==> a.val == v)
}

/// The matches of an exact annotation search over `e`, in order of registration.
pub open spec fn search(
    e: Seq<AnnoEntry>,
    ns: Option<StringID>,
    name: StringID,
    val: Option<StringID>,
) -> Seq<Match>
    decreases e.len(),
{
    if e.len() == 0 {
        Seq::empty()
    } else {
        let rest = search(e.drop_last(), ns, name, val);
        if anno_matches(e.last().1, ns, name, val) {
            rest.push(Match { node: e.last().0, anno: e.last().1 })
        } else {
            rest
        }
    }
}

/// The entries after setting annotation `a` on `node`: the value of an entry
/// with the same node and key is replaced in place, else the entry is appended.
pub open spec fn with_anno(e: Seq<AnnoEntry>, node: NodeID, a: Annotation) -> Seq<AnnoEntry> {
    if exists|i: int| 0 <= i < e.len() && e[i].0 == node && e[i].1.key == a.key {
        let i = choose|i: int| 0 <= i < e.len() && e[i].0 == node && e[i].1.key == a.key;
        e.update(i, (node, a))
    } else {
        e.push((node, a))
    }
}

/// No node carries two annotations with the same key.
pub open spec fn keys_unique(e: Seq<AnnoEntry>) -> bool {
    forall|i: int, j: int|
        0 <= i < e.len() && 0 <= j < e.len() && #[trigger] e[i].0 == #[trigger] e[j].0
            && e[i].1.key == e[j].1.key ==> i == j
}

/// Annotations of all nodes.
pub struct NodeAnnoStorage {
    entries: Vec<AnnoEntry>,
}

impl NodeAnnoStorage {
    /// The entries in order of registration.
    pub closed spec fn view(&self) -> Seq<AnnoEntry> {
        self.entries@
    }

    /// No node carries two annotations with the same key.
    pub open spec fn wf(&self) -> bool {
        keys_unique(self@)
    }

    /// An empty store.
    pub fn new() -> (r: NodeAnnoStorage)
        ensures
            r.wf(),
            r@ == Seq::<AnnoEntry>::empty(),
    {
        NodeAnnoStorage { entries: Vec::new() }
    }

    /// Set annotation `anno` on `node`, replacing the value of an annotation
    /// with the same key.
    pub fn insert(&mut self, node: NodeID, anno: Annotation)
        requires
            old(self).wf(),
        ensures
            final(self).wf(),
            final(self)@ == with_anno(old(self)@, node, anno),
    {
        let mut i: usize = 0;
        while i < self.entries.len()
            invariant
                i <= self.entries@.len(),
                self.entries@ == old(self)@,
                keys_unique(old(self)@),
                forall|k: int|
                    0 <= k < i ==> !(self.entries@[k].0 == node && self.entries@[k].1.key
                        == anno.key),
            decreases self.entries@.len() - i,
        {
            let (n, a) = self.entries[i];
            if n == node && a.key == anno.key {
                let ghost e = old(self)@;
                assert(e[i as int].0 == node && e[i as int].1.key == anno.key);
                let ghost c = choose|c: int|
                    0 <= c < e.len() && e[c].0 == node && e[c].1.key == anno.key;
                assert(e[c].0 == e[i as int].0 && e[c].1.key == e[i as int].1.key);
                assert(c == i);
                self.entries.set(i, (node, anno));
                assert forall|x: int, y: int|
                    0 <= x < self@.len() && 0 <= y < self@.len() && #[trigger] self@[x].0
                        == #[trigger] self@[y].0 && self@[x].1.key == self@[y].1.key implies x
                        == y by {
                    if x != i && y != i {
                        assert(e[x] == self@[x] && e[y] == self@[y]);
                    } else if x != i {
                        assert(e[x] == self@[x]);
                        assert(e[x].0 == e[i as int].0 && e[x].1.key == e[i as int].1.key);
                    } else if y != i {
                        assert(e[y] == self@[y]);
                        assert(e[y].0 == e[i as int].0 && e[y].1.key == e[i as int].1.key);
                    }
                }
                return;
            }
            i += 1;
        }
        self.entries.push((node, anno));
        assert forall|x: int, y: int|
            0 <= x < self@.len() && 0 <= y < self@.len() && #[trigger] self@[x].0
                == #[trigger] self@[y].0 && self@[x].1.key == self@[y].1.key implies x == y by {
            if x < old(self)@.len() && y < old(self)@.len() {
                assert(old(self)@[x] == self@[x] && old(self)@[y] == self@[y]);
            } else if x < old(self)@.len() {
                assert(old(self)@[x] == self@[x]);
            } else if y < old(self)@.len() {
                assert(old(self)@[y] == self@[y]);
            }
        }
    }

    /// All annotations of `node`, in order of registration.
    pub fn get_all(&self, node: NodeID) -> (r: Vec<Annotation>)
        ensures
            r@ == annos_of(self@, node),
    {
        let mut r: Vec<Annotation> = Vec::new();
        let mut i: usize = 0;
        while i < self.entries.len()
            invariant
                i <= self.entries@.len(),
                r@ == annos_of(self@.take(i as int), node),
            decreases self.entries@.len() - i,
        {
            assert(self@.take(i + 1).drop_last() =~= self@.take(i as int));
            let (n, a) = self.entries[i];
            if n == node {
                r.push(a);
            }
            i += 1;
        }
        assert(self@.take(i as int) =~= self@);
        r
    }

    /// All matches of an exact search: annotations named `name`, in namespace
    /// `ns` when it is given, with value `val` when it is given.
    pub fn exact_anno_search(
        &self,
        ns: Option<StringID>,
        name: StringID,
        val: Option<StringID>,
    ) -> (r: Vec<Match>)
        ensures
            r@ == search(self@, ns, name, val),
    {
        let mut r: Vec<Match> = Vec::new();
        let mut i: usize = 0;
        while i < self.entries.len()
            invariant
                i <= self.entries@.len(),
                r@ == search(self@.take(i as int), ns, name, val),
            decreases self.entries@.len() - i,
        {
            assert(self@.take(i + 1).drop_last() =~= self@.take(i as int));
            let (n, a) = self.entries[i];
            let ns_ok = match ns {
                Some(x) => a.key.ns == x,
                None => true,
            };
            let val_ok = match val {
                Some(v) => a.val == v,
                None => true,
            };
            if a.key.name == name && ns_ok && val_ok {
                r.push(Match { node: n, anno: a });
            }
            i += 1;
        }
        assert(self@.take(i as int) =~= self@);
        r
    }

    /// How many annotations carry name `name` (in namespace `ns`, when given).
    pub fn number_of_annotations_by_name(&self, ns: Option<StringID>, name: StringID) -> (r:
        usize)
        ensures
            r == search(self@, ns, name, None).len(),
    {
        self.exact_anno_search(ns, name, None).len()
    }
}

} // verus!
