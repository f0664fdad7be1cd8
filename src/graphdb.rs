//! The annotated graph: a string pool, the node annotations and one edge
//! storage per component, loaded on demand.

use vstd::prelude::*;
use crate::annostorage::{with_anno, NodeAnnoStorage};
use crate::graphstorage::GraphStorage;
use crate::stringpool::{spec_add, StringPool};
use crate::types::{AnnoKey, Annotation, Component, ComponentView, Edge, NodeID};

verus! {

/// A known component and, once it is loaded, its edges.
pub struct ComponentEntry {
    pub component: Component,
    pub storage: Option<GraphStorage>,
}

/// The components of `needed` that are not among `loaded`, in order: what
/// has to be read before a query that needs them can run.
pub open spec fn reads_for(loaded: Set<ComponentView>, needed: Seq<ComponentView>) -> Seq<
    ComponentView,
>
    decreases needed.len(),
{
    if needed.len() == 0 {
        Seq::empty()
    } else {
        let rest = reads_for(loaded, needed.drop_last());
        if loaded.contains(needed.last()) {
            rest
        } else {
            rest.push(needed.last())
        }
    }
}

/// Loading a component twice reads it at most once: before the first load at
/// most one read is due for it, and once it is loaded none is.
pub proof fn lemma_load_idempotent(loaded: Set<ComponentView>, c: ComponentView)
    ensures
        reads_for(loaded, seq![c]).len() <= 1,
        reads_for(loaded.insert(c), seq![c]).len() == 0,
{
    assert(seq![c].drop_last() =~= Seq::<ComponentView>::empty());
    assert(seq![c].last() == c);
    assert(reads_for(loaded, Seq::<ComponentView>::empty()).len() == 0);
    assert(reads_for(loaded.insert(c), Seq::<ComponentView>::empty()).len() == 0);
}

/// The components of `entries` that are loaded and hold `edge`, in order.
pub open spec fn components_with_edge(entries: Seq<ComponentEntry>, edge: Edge) -> Seq<ComponentView>
    decreases entries.len(),
{
    if entries.len() == 0 {
        Seq::empty()
    } else {
        let rest = components_with_edge(entries.drop_last(), edge);
        let e = entries.last();
        if e.storage is Some && e.storage->Some_0.edges().contains(edge) {
            rest.push(e.component@)
        } else {
            rest
        }
    }
}

/// Every component found is among `entries`, and none is found twice when no
/// component is registered twice.
proof fn lemma_components_with_edge(entries: Seq<ComponentEntry>, edge: Edge)
    ensures
        forall|c: ComponentView|
            components_with_edge(entries, edge).contains(c) ==> exists|i: int|
                0 <= i < entries.len() && #[trigger] entries[i].component@ == c,
        entries.map_values(|e: ComponentEntry| e.component@).no_duplicates() ==> components_with_edge(
            entries,
            edge,
        ).no_duplicates(),
    decreases entries.len(),
{
    if entries.len() > 0 {
        let d = entries.drop_last();
        lemma_components_with_edge(d, edge);
        let rest = components_with_edge(d, edge);
        let v = entries.map_values(|e: ComponentEntry| e.component@);
        assert(d.map_values(|e: ComponentEntry| e.component@) =~= v.drop_last());
        assert forall|c: ComponentView|
            components_with_edge(entries, edge).contains(c) implies exists|i: int|
                0 <= i < entries.len() && #[trigger] entries[i].component@ == c by {
            if rest.contains(c) {
                let i = choose|i: int| 0 <= i < d.len() && #[trigger] d[i].component@ == c;
                assert(entries[i] == d[i]);
            } else {
                assert(entries[entries.len() - 1].component@ == c);
            }
        }
        if v.no_duplicates() {
            assert(v.drop_last().no_duplicates());
            let last = entries.last().component@;
            if rest.contains(last) {
                let i = choose|i: int| 0 <= i < d.len() && #[trigger] d[i].component@ == last;
                assert(v[i] == v[entries.len() - 1]);
            }
        }
    }
}

/// The graph database.
pub struct GraphDB {
    pub strings: StringPool,
    pub node_annos: NodeAnnoStorage,
    pub components: Vec<ComponentEntry>,
}

impl GraphDB {
    /// The known components, in order of registration.
    pub open spec fn comps(&self) -> Seq<ComponentView> {
        self.components@.map_values(|e: ComponentEntry| e.component@)
    }

    /// The components whose edges are resident.
    pub open spec fn loaded(&self) -> Set<ComponentView> {
        Set::new(
            |c: ComponentView|
                exists|i: int|
                    0 <= i < self.components@.len() && self.components@[i].component@ == c
                        && self.components@[i].storage.is_some(),
        )
    }

    /// The edges of component `c`, when it is loaded.
    pub open spec fn edges_of(&self, c: ComponentView) -> Seq<Edge> {
        let i = choose|i: int|
            0 <= i < self.components@.len() && self.components@[i].component@ == c
                && self.components@[i].storage.is_some();
        self.components@[i].storage.unwrap().edges()
    }

    /// The pool and the annotations are well formed, no component is known
    /// twice and every loaded storage is well formed.
    pub open spec fn wf(&self) -> bool {
        &&& self.strings.wf()
        &&& self.node_annos.wf()
        &&& self.comps().no_duplicates()
        &&& forall|i: int|
            0 <= i < self.node_annos@.len() ==> {
                let a = (#[trigger] self.node_annos@[i]).1;
                &&& a.key.ns < self.strings@.len()
                &&& a.key.name < self.strings@.len()
                &&& a.val < self.strings@.len()
            }
        &&& forall|i: int|
            0 <= i < self.components@.len() && (#[trigger] self.components@[i]).storage.is_some()
                ==> self.components@[i].storage.unwrap().wf()
    }

    /// An empty database without components.
    pub fn new() -> (r: GraphDB)
        ensures
            r.wf(),
            r.comps() == Seq::<ComponentView>::empty(),
            r.strings@ == seq![Seq::<char>::empty()],
            r.node_annos@ == Seq::<crate::annostorage::AnnoEntry>::empty(),
    {
        let r = GraphDB {
            strings: StringPool::new(),
            node_annos: NodeAnnoStorage::new(),
            components: Vec::new(),
        };
        assert(r.comps() =~= Seq::<ComponentView>::empty());
        r
    }

    /// The index of component `c` among the known ones.
    fn find_component(&self, c: &Component) -> (r: Option<usize>)
        ensures
            r.is_none() <==> !self.comps().contains(c@),
            r matches Some(i) ==> i < self.components@.len() && self.components@[i as int].component@
                == c@,
    {
        let mut i: usize = 0;
        while i < self.components.len()
            invariant
                i <= self.components@.len(),
                forall|k: int| 0 <= k < i ==> self.comps()[k] != c@,
            decreases self.components@.len() - i,
        {
            if self.components[i].component.same(c) {
                assert(self.comps()[i as int] == c@);
                return Some(i);
            }
            i += 1;
        }
        None
    }

    /// Whether component `c` is loaded.
    pub fn is_loaded(&self, c: &Component) -> (r: bool)
        requires
            self.wf(),
        ensures
            r == self.loaded().contains(c@),
    {
        match self.find_component(c) {
            Some(i) => {
                let ghost ii = i as int;
                assert forall|k: int|
                    0 <= k < self.components@.len() && self.components@[k].component@ == c@
                        implies k == ii by {
                    assert(self.comps()[k] == self.comps()[ii]);
                }
                self.components[i].storage.is_some()
            },
            None => {
                assert forall|k: int| 0 <= k < self.components@.len() implies self.components@[k].component@ != c@ by {
                    assert(self.comps()[k] == self.components@[k].component@);
                }
                false
            },
        }
    }

    /// The components of `needed` that are not loaded yet, in order: what
    /// has to be read from the persistent store.
    pub fn missing_components(&self, needed: &Vec<Component>) -> (r: Vec<Component>)
        requires
            self.wf(),
        ensures
            r@.map_values(|c: Component| c@) == reads_for(
                self.loaded(),
                needed@.map_values(|c: Component| c@),
            ),
    {
        let ghost nv = needed@.map_values(|c: Component| c@);
        let mut r: Vec<Component> = Vec::new();
        let mut i: usize = 0;
        while i < needed.len()
            invariant
                self.wf(),
                i <= needed@.len(),
                nv == needed@.map_values(|c: Component| c@),
                r@.map_values(|c: Component| c@) == reads_for(self.loaded(), nv.take(i as int)),
            decreases needed@.len() - i,
        {
            assert(nv.take(i + 1).drop_last() =~= nv.take(i as int));
            let ghost before = r@;
            if !self.is_loaded(&needed[i]) {
                r.push(needed[i].duplicate());
                assert(r@.map_values(|c: Component| c@) =~= before.map_values(|c: Component| c@).push(
                    nv[i as int],
                ));
            }
            i += 1;
        }
        assert(nv.take(i as int) =~= nv);
        r
    }

    /// Make component `c` known without loading it.
    pub fn register_component(&mut self, c: &Component)
        requires
            old(self).wf(),
        ensures
            final(self).wf(),
            final(self).loaded() == old(self).loaded(),
            final(self).strings == old(self).strings,
            final(self).node_annos == old(self).node_annos,
            final(self).comps() == if old(self).comps().contains(c@) {
                old(self).comps()
            } else {
                old(self).comps().push(c@)
            },
    {
        if self.find_component(c).is_none() {
            self.components.push(ComponentEntry { component: c.duplicate(), storage: None });
            assert(self.comps() =~= old(self).comps().push(c@));
            assert(self.loaded() =~= old(self).loaded()) by {
                assert forall|v: ComponentView| self.loaded().contains(v) implies old(self).loaded().contains(v) by {
                    let k = choose|k: int|
                        0 <= k < self.components@.len() && self.components@[k].component@ == v
                            && self.components@[k].storage.is_some();
                    assert(k < old(self).components@.len());
                    assert(self.components@[k] == old(self).components@[k]);
                }
                assert forall|v: ComponentView| old(self).loaded().contains(v) implies self.loaded().contains(v) by {
                    let k = choose|k: int|
                        0 <= k < old(self).components@.len() && old(self).components@[k].component@ == v
                            && old(self).components@[k].storage.is_some();
                    assert(self.components@[k] == old(self).components@[k]);
                }
            }
            assert forall|i: int|
                0 <= i < self.components@.len() && (#[trigger] self.components@[i]).storage.is_some()
                    implies self.components@[i].storage.unwrap().wf() by {
                assert(i < old(self).components@.len());
                assert(self.components@[i] == old(self).components@[i]);
            }
        }
    }

    /// Install the edges `gs` read from the persistent store as the storage of
    /// component `c`. A loaded component stays loaded.
    pub fn install_component(&mut self, c: &Component, gs: GraphStorage)
        requires
            old(self).wf(),
            gs.wf(),
        ensures
            final(self).wf(),
            final(self).loaded() == old(self).loaded().insert(c@),
            final(self).edges_of(c@) == gs.edges(),
            final(self).strings == old(self).strings,
            final(self).node_annos == old(self).node_annos,
            final(self).comps() == if old(self).comps().contains(c@) {
                old(self).comps()
            } else {
                old(self).comps().push(c@)
            },
    {
        self.register_component(c);
        let ghost mid = *self;
        let i = match self.find_component(c) {
            Some(i) => i,
            None => {
                proof {
                    if old(self).comps().contains(c@) {
                        let k = choose|k: int|
                            0 <= k < old(self).comps().len() && old(self).comps()[k] == c@;
                        assert(self.comps()[k] == c@);
                    } else {
                        assert(self.comps()[self.comps().len() - 1] == c@);
                    }
                }
                0
            },
        };
        let ghost gse = gs.edges();
        let ghost cc = self.components@[i as int].component;
        self.components.set(i, ComponentEntry { component: c.duplicate(), storage: Some(gs) });
        assert(self.comps() =~= mid.comps());
        assert forall|k: int| 0 <= k < self.components@.len() && self.components@[k].component@ == c@ implies k == i by {
            assert(mid.comps()[k] == mid.comps()[i as int]);
        }
        assert(self.loaded() =~= old(self).loaded().insert(c@)) by {
            assert forall|v: ComponentView| self.loaded().contains(v) implies mid.loaded().insert(c@).contains(v) by {
                let k = choose|k: int|
                    0 <= k < self.components@.len() && self.components@[k].component@ == v
                        && self.components@[k].storage.is_some();
                if k != i {
                    assert(self.components@[k] == mid.components@[k]);
                }
            }
            assert forall|v: ComponentView| mid.loaded().insert(c@).contains(v) implies self.loaded().contains(v) by {
                if v != c@ {
                    let k = choose|k: int|
                        0 <= k < mid.components@.len() && mid.components@[k].component@ == v
                            && mid.components@[k].storage.is_some();
                    assert(k != i);
                    assert(self.components@[k] == mid.components@[k]);
                } else {
                    assert(self.components@[i as int].component@ == c@);
                }
            }
        }
        assert forall|k: int|
            0 <= k < self.components@.len() && (#[trigger] self.components@[k]).storage.is_some()
                implies self.components@[k].storage.unwrap().wf() by {
            if k != i {
                assert(self.components@[k] == mid.components@[k]);
            }
        }
    }

    /// Set annotation `ns:name=val` on `node`, interning the strings.
    pub fn add_node_anno(&mut self, node: NodeID, ns: &str, name: &str, val: &str) -> (r: Annotation)
        requires
            old(self).wf(),
        ensures
            final(self).wf(),
            final(self).strings@[r.key.ns as int] == ns@,
            final(self).strings@[r.key.name as int] == name@,
            final(self).strings@[r.val as int] == val@,
            final(self).node_annos@ == with_anno(old(self).node_annos@, node, r),
            final(self).components == old(self).components,
            old(self).strings@.is_prefix_of(final(self).strings@),
    {
        let ns_id = self.strings.add(ns);
        let name_id = self.strings.add(name);
        let val_id = self.strings.add(val);
        let ghost p0 = old(self).strings@;
        proof {
            crate::stringpool::lemma_intern_round_trip(p0, ns@);
            let p1 = spec_add(p0, ns@).0;
            crate::stringpool::lemma_intern_round_trip(p1, name@);
            let p2 = spec_add(p1, name@).0;
            crate::stringpool::lemma_intern_round_trip(p2, val@);
            assert(p0.is_prefix_of(p1));
            assert(p1.is_prefix_of(p2));
            assert(p2.is_prefix_of(self.strings@));
            assert(self.strings@[ns_id as int] == p1[ns_id as int]);
            assert(self.strings@[name_id as int] == p2[name_id as int]);
        }
        let a = Annotation { key: AnnoKey { ns: ns_id, name: name_id }, val: val_id };
        self.node_annos.insert(node, a);
        proof {
            let e0 = old(self).node_annos@;
            let e = self.node_annos@;
            assert forall|i: int| 0 <= i < e.len() implies {
                let x = (#[trigger] e[i]).1;
                &&& x.key.ns < self.strings@.len()
                &&& x.key.name < self.strings@.len()
                &&& x.val < self.strings@.len()
            } by {
                if exists|k: int| 0 <= k < e0.len() && e0[k].0 == node && e0[k].1.key == a.key {
                    let k = choose|k: int| 0 <= k < e0.len() && e0[k].0 == node && e0[k].1.key == a.key;
                    if i != k {
                        assert(e[i] == e0[i]);
                    }
                } else if i < e0.len() {
                    assert(e[i] == e0[i]);
                }
            }
        }
        a
    }

    /// The loaded components that hold edge `edge`, in order of registration,
    /// each once.
    pub fn get_direct_connected(&self, edge: &Edge) -> (r: Vec<Component>)
        requires
            self.wf(),
        ensures
            r@.map_values(|c: Component| c@) == components_with_edge(self.components@, *edge),
            r@.map_values(|c: Component| c@).no_duplicates(),
    {
        let mut r: Vec<Component> = Vec::new();
        let mut i: usize = 0;
        while i < self.components.len()
            invariant
                i <= self.components@.len(),
                r@.map_values(|c: Component| c@) == components_with_edge(self.components@.take(i as int), *edge),
            decreases self.components@.len() - i,
        {
            let ghost before = r@;
            assert(self.components@.take(i + 1).drop_last() =~= self.components@.take(i as int));
            let hit = match &self.components[i].storage {
                Some(gs) => gs.has_edge(*edge),
                None => false,
            };
            if hit {
                r.push(self.components[i].component.duplicate());
                assert(r@.map_values(|c: Component| c@) =~= before.map_values(|c: Component| c@).push(
                    self.components@[i as int].component@,
                ));
            }
            i += 1;
        }
        assert(self.components@.take(i as int) =~= self.components@);
        proof {
            lemma_components_with_edge(self.components@, *edge);
        }
        r
    }

    /// The storage of component `c`, if it is loaded.
    pub fn get_graphstorage(&self, c: &Component) -> (r: Option<&GraphStorage>)
        requires
            self.wf(),
        ensures
            r.is_some() == self.loaded().contains(c@),
            r matches Some(gs) ==> gs.edges() == self.edges_of(c@) && gs.wf(),
    {
        match self.find_component(c) {
            Some(i) => {
                let ghost ii = i as int;
                assert forall|k: int|
                    0 <= k < self.components@.len() && self.components@[k].component@ == c@
                        implies k == ii by {
                    assert(self.comps()[k] == self.comps()[ii]);
                }
                match &self.components[i].storage {
                    Some(gs) => Some(gs),
                    None => None,
                }
            },
            None => {
                assert forall|k: int| 0 <= k < self.components@.len() implies self.components@[k].component@ != c@ by {
                    assert(self.comps()[k] == self.components@[k].component@);
                }
                None
            },
        }
    }
}

} // verus!
