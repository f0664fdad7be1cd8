//! Core data model: node and string identifiers, annotation keys,
//! annotations, matches, edges and components.

use vstd::prelude::*;

verus! {

/// Identity of a graph node.
pub type NodeID = u64;

/// Identity of an interned string; `0` is the empty string.
pub type StringID = usize;

/// An annotation key: namespace and name, both interned.
#[derive(Clone, Copy, Debug, PartialEq, Eq, Hash, Structural)]
pub struct AnnoKey {
    pub ns: StringID,
    pub name: StringID,
}

/// An annotation: a key and an interned value.
#[derive(Clone, Copy, Debug, PartialEq, Eq, Hash, Structural)]
pub struct Annotation {
    pub key: AnnoKey,
    pub val: StringID,
}

/// A single binding of a query variable: a node and the annotation that matched.
#[derive(Clone, Copy, Debug, PartialEq, Eq, Hash, Structural)]
pub struct Match {
    pub node: NodeID,
    pub anno: Annotation,
}

/// A directed edge between two nodes.
#[derive(Clone, Copy, Debug, PartialEq, Eq, Hash, Structural)]
pub struct Edge {
    pub source: NodeID,
    pub target: NodeID,
}

} // verus!

verus! {

/// The classes of edges a component can hold.
#[derive(Clone, Copy, Debug, PartialEq, Eq, Hash, Structural)]
pub enum ComponentType {
    Coverage,
    Dominance,
    Pointing,
    Ordering,
    LeftToken,
    RightToken,
    PartOfSubcorpus,
}

/// Identity of one edge-labelled subgraph: edge class, layer and name.
#[derive(Clone, Debug, Hash)]
pub struct Component {
    pub ctype: ComponentType,
    pub layer: String,
    pub name: String,
}

/// The mathematical value of a component.
pub type ComponentView = (ComponentType, Seq<char>, Seq<char>);

impl Component {
    pub open spec fn view(&self) -> ComponentView {
        (self.ctype, self.layer@, self.name@)
    }

    /// A component of class `ctype` in layer `layer` with name `name`.
    pub fn new(ctype: ComponentType, layer: &str, name: &str) -> (r: Component)
        ensures
            r@ == (ctype, layer@, name@),
    {
        Component { ctype, layer: layer.to_string(), name: name.to_string() }
    }

    /// A copy of this component.
    pub fn duplicate(&self) -> (r: Component)
        ensures
            r@ == self@,
    {
        Component { ctype: self.ctype, layer: self.layer.clone(), name: self.name.clone() }
    }

    /// Whether two components are the same.
    pub fn same(&self, o: &Component) -> (r: bool)
        ensures
            r == (self@ == o@),
    {
        self.ctype == o.ctype && self.layer == o.layer && self.name == o.name
    }
}

impl PartialEq for Component {
    fn eq(&self, o: &Component) -> (r: bool) {
        self.same(o)
    }
}

impl vstd::std_specs::cmp::PartialEqSpecImpl for Component {
    open spec fn obeys_eq_spec() -> bool {
        true
    }

    open spec fn eq_spec(&self, o: &Component) -> bool {
        self@ == o@
    }
}

impl Eq for Component {

}

/// Whether `x` occurs in `v`.
pub fn contains_node(v: &Vec<NodeID>, x: NodeID) -> (r: bool)
    ensures
        r == v@.contains(x),
{
    let mut i: usize = 0;
    while i < v.len()
        invariant
            i <= v@.len(),
            forall|k: int| 0 <= k < i ==> v@[k] != x,
        decreases v@.len() - i,
    {
        if v[i] == x {
            return true;
        }
        i += 1;
    }
    false
}

} // verus!
