//! The query representation: node searches, binary operators, conjunctions
//! and disjunctions.

use vstd::prelude::*;
use crate::types::{Component, ComponentType, ComponentView};

verus! {

/// Namespace of the annotations the engine itself maintains.
pub const ANNIS_NS: &'static str = "annis";

/// Name of the annotation that holds a token's text.
pub const TOK: &'static str = "tok";

/// Name of the annotation that every node carries.
pub const NODE_TYPE: &'static str = "node_type";

/// What a node search looks for.
pub enum NodeSearchSpec {
    /// An annotation `ns:name=val`; the namespace and the value are optional.
    ExactValue { ns: Option<String>, name: String, val: Option<String> },
    /// An annotation named `name` (in namespace `ns`, when given) whose
    /// whole value matches the regular expression `pattern`.
    RegexValue { ns: Option<String>, name: String, pattern: String },
    /// A token whose text is `val`; with `leafs_only`, only a token that
    /// covers no other node.
    ExactTokenValue { val: String, leafs_only: bool },
    /// A token whose whole text matches the regular expression `pattern`;
    /// with `leafs_only`, only a token that covers no other node.
    RegexTokenValue { pattern: String, leafs_only: bool },
    /// Any token.
    AnyToken,
    /// Any node.
    AnyNode,
}

/// The annotation a node search looks for, as strings: optional namespace,
/// name and optional value.
pub type SearchKey = (Option<Seq<char>>, Seq<char>, Option<Seq<char>>);

/// The view of an optional string.
pub open spec fn opt_view(s: Option<String>) -> Option<Seq<char>> {
    match s {
        Some(x) => Some(x@),
        None => None,
    }
}

impl NodeSearchSpec {
    /// The annotation this search looks for.
    pub open spec fn key(&self) -> SearchKey {
        match self {
            NodeSearchSpec::ExactValue { ns, name, val } => (opt_view(*ns), name@, opt_view(*val)),
            NodeSearchSpec::RegexValue { ns, name, .. } => (opt_view(*ns), name@, None),
            NodeSearchSpec::ExactTokenValue { val, .. } => (Some(ANNIS_NS@), TOK@, Some(val@)),
            NodeSearchSpec::RegexTokenValue { .. } => (Some(ANNIS_NS@), TOK@, None),
            NodeSearchSpec::AnyToken => (Some(ANNIS_NS@), TOK@, None),
            NodeSearchSpec::AnyNode => (Some(ANNIS_NS@), NODE_TYPE@, None),
        }
    }

    /// The regular expression the whole value must match, if any.
    pub open spec fn pattern(&self) -> Option<Seq<char>> {
        match self {
            NodeSearchSpec::RegexValue { pattern, .. } => Some(pattern@),
            NodeSearchSpec::RegexTokenValue { pattern, .. } => Some(pattern@),
            _ => None,
        }
    }

    /// Only nodes that cover no other node are found.
    pub open spec fn leafs_only(&self) -> bool {
        match self {
            NodeSearchSpec::ExactTokenValue { leafs_only, .. } => *leafs_only,
            NodeSearchSpec::RegexTokenValue { leafs_only, .. } => *leafs_only,
            _ => false,
        }
    }

    /// A search for annotation `ns:name=val`.
    pub fn new_exact(ns: Option<&str>, name: &str, val: Option<&str>) -> (r: NodeSearchSpec)
        ensures
            r.key() == (
                match ns {
                    Some(x) => Some(x@),
                    None => None::<Seq<char>>,
                },
                name@,
                match val {
                    Some(x) => Some(x@),
                    None => None::<Seq<char>>,
                },
            ),
    {
        let ns = match ns {
            Some(x) => Some(x.to_string()),
            None => None,
        };
        let val = match val {
            Some(x) => Some(x.to_string()),
            None => None,
        };
        NodeSearchSpec::ExactValue { ns, name: name.to_string(), val }
    }
}

/// Precedence: the right node follows the left one in the token order at a
/// distance between `min_dist` and `max_dist`.
pub struct PrecedenceSpec {
    pub segmentation: Option<String>,
    pub min_dist: usize,
    pub max_dist: usize,
}

/// The binary operators.
pub enum OperatorSpec {
    Precedence(PrecedenceSpec),
}

/// The ordering component that a precedence over `segmentation` consults.
pub open spec fn ordering_component(segmentation: Option<Seq<char>>) -> ComponentView {
    match segmentation {
        Some(s) => (ComponentType::Ordering, Seq::<char>::empty(), s),
        None => (ComponentType::Ordering, ANNIS_NS@, Seq::<char>::empty()),
    }
}

impl OperatorSpec {
    /// The component whose edges decide the operator.
    pub open spec fn component(&self) -> ComponentView {
        match self {
            OperatorSpec::Precedence(p) => ordering_component(opt_view(p.segmentation)),
        }
    }

    /// Least distance.
    pub open spec fn min(&self) -> nat {
        match self {
            OperatorSpec::Precedence(p) => p.min_dist as nat,
        }
    }

    /// Greatest distance.
    pub open spec fn max(&self) -> nat {
        match self {
            OperatorSpec::Precedence(p) => p.max_dist as nat,
        }
    }

    /// Whether a match may stand in relation to itself.
    pub open spec fn reflexive(&self) -> bool {
        match self {
            OperatorSpec::Precedence(_) => false,
        }
    }

    /// The component whose edges decide the operator.
    pub fn necessary_component(&self) -> (r: Component)
        ensures
            r@ == self.component(),
    {
        proof {
            reveal_strlit("");
        }
        match self {
            OperatorSpec::Precedence(p) => match &p.segmentation {
                Some(s) => Component::new(ComponentType::Ordering, "", s.as_str()),
                None => Component::new(ComponentType::Ordering, ANNIS_NS, ""),
            },
        }
    }

    /// The components the operator consults.
    pub fn necessary_components(&self) -> (r: Vec<Component>)
        ensures
            r@.map_values(|c: Component| c@) == seq![self.component()],
    {
        let mut r: Vec<Component> = Vec::new();
        r.push(self.necessary_component());
        assert(r@.map_values(|c: Component| c@) =~= seq![self.component()]);
        r
    }

    /// Whether a match may stand in relation to itself.
    pub fn is_reflexive(&self) -> (r: bool)
        ensures
            r == self.reflexive(),
    {
        match self {
            OperatorSpec::Precedence(_) => false,
        }
    }

    /// Least and greatest distance.
    pub fn distance_bounds(&self) -> (r: (usize, usize))
        ensures
            r.0 == self.min(),
            r.1 == self.max(),
    {
        match self {
            OperatorSpec::Precedence(p) => (p.min_dist, p.max_dist),
        }
    }
}

/// An operator between the nodes at positions `lhs` and `rhs`.
pub struct OperatorEntry {
    pub op: OperatorSpec,
    pub lhs: usize,
    pub rhs: usize,
}

/// A conjunction of node searches (a variable per position) linked by
/// binary operators.
pub struct Conjunction {
    pub nodes: Vec<NodeSearchSpec>,
    pub variables: Vec<Option<String>>,
    pub operators: Vec<OperatorEntry>,
}

/// Whether `needle` occurs among the views of `hay`.
pub open spec fn has_component(hay: Seq<Component>, needle: ComponentView) -> bool {
    exists|i: int| 0 <= i < hay.len() && hay[i]@ == needle
}

/// Add `c` to `acc` unless it is already there.
fn push_unique(acc: &mut Vec<Component>, c: Component)
    ensures
        forall|v: ComponentView|
            has_component(final(acc)@, v) <==> (has_component(old(acc)@, v) || v == c@),
        old(acc)@.map_values(|x: Component| x@).no_duplicates() ==> final(acc)@.map_values(
            |x: Component| x@,
        ).no_duplicates(),
{
    let mut i: usize = 0;
    while i < acc.len()
        invariant
            i <= acc@.len(),
            acc@ == old(acc)@,
            forall|k: int| 0 <= k < i ==> acc@[k]@ != c@,
        decreases acc@.len() - i,
    {
        if acc[i].same(&c) {
            return;
        }
        i += 1;
    }
    let ghost c_view = c@;
    acc.push(c);
    assert forall|v: ComponentView|
        has_component(acc@, v) <==> (has_component(old(acc)@, v) || v == c_view) by {
        if has_component(old(acc)@, v) {
            let k = choose|k: int| 0 <= k < old(acc)@.len() && old(acc)@[k]@ == v;
            assert(acc@[k]@ == v);
        }
        if v == c_view {
            assert(acc@[old(acc)@.len() as int]@ == v);
        }
        if has_component(acc@, v) {
            let k = choose|k: int| 0 <= k < acc@.len() && acc@[k]@ == v;
            if k < old(acc)@.len() {
                assert(old(acc)@[k]@ == v);
            }
        }
    }
    assert(acc@.map_values(|x: Component| x@) =~= old(acc)@.map_values(|x: Component| x@).push(
        c_view,
    ));
}

impl Conjunction {
    /// A conjunction without nodes.
    pub fn new() -> (r: Conjunction)
        ensures
            r.nodes@.len() == 0,
            r.variables@.len() == 0,
            r.operators@.len() == 0,
    {
        Conjunction { nodes: Vec::new(), variables: Vec::new(), operators: Vec::new() }
    }

    /// Positions of nodes and names of variables agree and every operator
    /// links two existing positions.
    pub open spec fn wf(&self) -> bool {
        &&& self.variables@.len() == self.nodes@.len()
        &&& forall|j: int|
            0 <= j < self.operators@.len() ==> (#[trigger] self.operators@[j]).lhs
                < self.nodes@.len() && self.operators@[j].rhs < self.nodes@.len()
    }

    /// Add a node search, optionally under a variable name; the result is its position.
    pub fn add_node(&mut self, node: NodeSearchSpec, variable: Option<&str>) -> (r: usize)
        requires
            old(self).variables@.len() == old(self).nodes@.len(),
        ensures
            r == old(self).nodes@.len(),
            final(self).nodes@ == old(self).nodes@.push(node),
            final(self).variables@.len() == final(self).nodes@.len(),
            opt_view(final(self).variables@[r as int]) == match variable {
                Some(x) => Some(x@),
                None => None::<Seq<char>>,
            },
            forall|i: int| 0 <= i < r ==> final(self).variables@[i] == old(self).variables@[i],
            final(self).operators@ == old(self).operators@,
    {
        let r = self.nodes.len();
        self.nodes.push(node);
        let v = match variable {
            Some(x) => Some(x.to_string()),
            None => None,
        };
        self.variables.push(v);
        r
    }

    /// Add operator `op` between the nodes at `lhs` and `rhs`.
    pub fn add_operator(&mut self, op: OperatorSpec, lhs: usize, rhs: usize)
        ensures
            final(self).nodes@ == old(self).nodes@,
            final(self).variables@ == old(self).variables@,
            final(self).operators@ == old(self).operators@.push(OperatorEntry { op, lhs, rhs }),
    {
        self.operators.push(OperatorEntry { op, lhs, rhs });
    }

    /// The position of the first node named `variable`.
    pub fn get_variable_pos(&self, variable: &str) -> (r: Option<usize>)
        ensures
            r.is_none() <==> forall|i: int|
                0 <= i < self.variables@.len() ==> opt_view(self.variables@[i]) != Some(variable@),
            r matches Some(p) ==> p < self.variables@.len() && opt_view(self.variables@[p as int])
                == Some(variable@) && forall|i: int|
                0 <= i < p ==> opt_view(self.variables@[i]) != Some(variable@),
    {
        let target = variable.to_string();
        let mut i: usize = 0;
        while i < self.variables.len()
            invariant
                i <= self.variables@.len(),
                target@ == variable@,
                forall|k: int| 0 <= k < i ==> opt_view(self.variables@[k]) != Some(variable@),
            decreases self.variables@.len() - i,
        {
            match &self.variables[i] {
                Some(v) => {
                    if *v == target {
                        return Some(i);
                    }
                },
                None => {},
            }
            i += 1;
        }
        None
    }

    /// The components that the operators consult, each once.
    pub fn necessary_components(&self) -> (r: Vec<Component>)
        ensures
            r@.map_values(|c: Component| c@).no_duplicates(),
            forall|v: ComponentView|
                has_component(r@, v) <==> exists|j: int|
                    0 <= j < self.operators@.len() && (#[trigger] self.operators@[j]).op.component()
                        == v,
    {
        let mut r: Vec<Component> = Vec::new();
        let mut i: usize = 0;
        assert(r@.map_values(|c: Component| c@) =~= Seq::<ComponentView>::empty());
        while i < self.operators.len()
            invariant
                i <= self.operators@.len(),
                r@.map_values(|c: Component| c@).no_duplicates(),
                forall|v: ComponentView|
                    has_component(r@, v) <==> exists|j: int|
                        0 <= j < i && (#[trigger] self.operators@[j]).op.component() == v,
            decreases self.operators@.len() - i,
        {
            push_unique(&mut r, self.operators[i].op.necessary_component());
            assert forall|v: ComponentView|
                has_component(r@, v) <==> exists|j: int|
                    0 <= j < i + 1 && (#[trigger] self.operators@[j]).op.component() == v by {
                if v == self.operators@[i as int].op.component() {
                    assert(0 <= i < i + 1);
                }
            }
            i += 1;
        }
        r
    }
}

/// Alternatives: a match of any one of them is a match of the whole.
pub struct Disjunction {
    pub alternatives: Vec<Conjunction>,
}

impl Disjunction {
    /// A disjunction of `alternatives`.
    pub fn new(alternatives: Vec<Conjunction>) -> (r: Disjunction)
        ensures
            r.alternatives@ == alternatives@,
    {
        Disjunction { alternatives }
    }

    /// The components that any alternative consults, each once.
    pub fn necessary_components(&self) -> (r: Vec<Component>)
        ensures
            r@.map_values(|c: Component| c@).no_duplicates(),
            forall|v: ComponentView|
                has_component(r@, v) <==> exists|a: int, j: int|
                    0 <= a < self.alternatives@.len() && 0 <= j
                        < self.alternatives@[a].operators@.len() && (
                    #[trigger] self.alternatives@[a].operators@[j]).op.component() == v,
    {
        let mut r: Vec<Component> = Vec::new();
        assert(r@.map_values(|c: Component| c@) =~= Seq::<ComponentView>::empty());
        let mut a: usize = 0;
        while a < self.alternatives.len()
            invariant
                a <= self.alternatives@.len(),
                r@.map_values(|c: Component| c@).no_duplicates(),
                forall|v: ComponentView|
                    has_component(r@, v) <==> exists|x: int, j: int|
                        0 <= x < a && 0 <= j < self.alternatives@[x].operators@.len() && (
                        #[trigger] self.alternatives@[x].operators@[j]).op.component() == v,
            decreases self.alternatives@.len() - a,
        {
            let cs = self.alternatives[a].necessary_components();
            let ghost before = r@;
            let mut i: usize = 0;
            while i < cs.len()
                invariant
                    i <= cs@.len(),
                    r@.map_values(|c: Component| c@).no_duplicates(),
                    forall|v: ComponentView|
                        has_component(r@, v) <==> (has_component(before, v) || exists|k: int|
                            0 <= k < i && cs@[k]@ == v),
                decreases cs@.len() - i,
            {
                let ghost mid = r@;
                assert(forall|v: ComponentView|
                    has_component(mid, v) <==> (has_component(before, v) || exists|k: int|
                        0 <= k < i && cs@[k]@ == v));
                push_unique(&mut r, cs[i].duplicate());
                assert forall|v: ComponentView|
                    has_component(r@, v) <==> (has_component(before, v) || exists|k: int|
                        0 <= k < i + 1 && cs@[k]@ == v) by {
                    assert(has_component(r@, v) <==> (has_component(mid, v) || v == cs@[i as int]@));
                    assert(has_component(mid, v) <==> (has_component(before, v) || exists|k: int|
                        0 <= k < i && cs@[k]@ == v));
                    if exists|k: int| 0 <= k < i + 1 && cs@[k]@ == v {
                        let k = choose|k: int| 0 <= k < i + 1 && cs@[k]@ == v;
                        if k < i {
                            assert(exists|k: int| 0 <= k < i && cs@[k]@ == v);
                        }
                    }
                    if v == cs@[i as int]@ {
                        assert(0 <= i < i + 1);
                    }
                }
                i += 1;
            }
            assert forall|v: ComponentView|
                has_component(r@, v) <==> exists|x: int, j: int|
                    0 <= x < a + 1 && 0 <= j < self.alternatives@[x].operators@.len() && (
                    #[trigger] self.alternatives@[x].operators@[j]).op.component() == v by {
                assert(has_component(r@, v) <==> (has_component(before, v) || exists|k: int|
                    0 <= k < cs@.len() && cs@[k]@ == v));
                assert(has_component(cs@, v) <==> exists|j: int|
                    0 <= j < self.alternatives@[a as int].operators@.len() && (
                    #[trigger] self.alternatives@[a as int].operators@[j]).op.component() == v);
                if exists|x: int, j: int|
                    0 <= x < a && 0 <= j < self.alternatives@[x].operators@.len() && (
                    #[trigger] self.alternatives@[x].operators@[j]).op.component() == v {
                    assert(has_component(before, v));
                }
                if exists|x: int, j: int|
                    0 <= x < a + 1 && 0 <= j < self.alternatives@[x].operators@.len() && (
                    #[trigger] self.alternatives@[x].operators@[j]).op.component() == v {
                    let (x, j) = choose|x: int, j: int|
                        0 <= x < a + 1 && 0 <= j < self.alternatives@[x].operators@.len() && (
                        #[trigger] self.alternatives@[x].operators@[j]).op.component() == v;
                    if x == a {
                        assert(has_component(cs@, v));
                    }
                }
                if exists|j: int|
                    0 <= j < self.alternatives@[a as int].operators@.len() && (
                    #[trigger] self.alternatives@[a as int].operators@[j]).op.component() == v {
                    assert(has_component(cs@, v));
                }
                if has_component(cs@, v) {
                    let j = choose|j: int|
                        0 <= j < self.alternatives@[a as int].operators@.len() && (
                        #[trigger] self.alternatives@[a as int].operators@[j]).op.component()
                            == v;
                    assert(0 <= a < a + 1);
                }
            }
            a += 1;
        }
        r
    }

    /// The position of variable `variable` in the first alternative that
    /// names it.
    pub fn get_variable_pos(&self, variable: &str) -> (r: Option<usize>)
        ensures
            r.is_none() <==> forall|a: int, i: int|
                0 <= a < self.alternatives@.len() && 0 <= i
                    < self.alternatives@[a].variables@.len() ==> opt_view(
                    #[trigger] self.alternatives@[a].variables@[i],
                ) != Some(variable@),
            r matches Some(p) ==> exists|a: int|
                0 <= a < self.alternatives@.len() && p < self.alternatives@[a].variables@.len()
                    && opt_view(self.alternatives@[a].variables@[p as int]) == Some(variable@)
                    && (forall|i: int|
                    0 <= i < p ==> opt_view(#[trigger] self.alternatives@[a].variables@[i]) != Some(
                        variable@,
                    )) && forall|b: int, i: int|
                    0 <= b < a && 0 <= i < self.alternatives@[b].variables@.len() ==> opt_view(
                        #[trigger] self.alternatives@[b].variables@[i],
                    ) != Some(variable@),
    {
        let mut a: usize = 0;
        while a < self.alternatives.len()
            invariant
                a <= self.alternatives@.len(),
                forall|b: int, i: int|
                    0 <= b < a && 0 <= i < self.alternatives@[b].variables@.len() ==> opt_view(
                        #[trigger] self.alternatives@[b].variables@[i],
                    ) != Some(variable@),
            decreases self.alternatives@.len() - a,
        {
            if let Some(p) = self.alternatives[a].get_variable_pos(variable) {
                return Some(p);
            }
            a += 1;
        }
        None
    }
}

} // verus!
