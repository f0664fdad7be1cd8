//! Edge storage of one component, answering adjacency and bounded-distance
//! reachability questions.

use vstd::prelude::*;
use crate::types::{contains_node, Annotation, Edge, NodeID};

verus! {

broadcast use vstd::seq_lib::group_seq_properties;

/// `edges` holds an edge from `a` to `b`.
pub open spec fn linked(edges: Seq<Edge>, a: NodeID, b: NodeID) -> bool {
    edges.contains(Edge { source: a, target: b })
}

/// Consecutive nodes of `p` are joined by edges of `edges`.
pub open spec fn is_walk(edges: Seq<Edge>, p: Seq<NodeID>) -> bool {
    forall|i: int|
        0 <= i < p.len() - 1 ==> #[trigger] linked(edges, p[i], p[i + 1])
}

/// `n` is the end of a walk of exactly `k` edges of `edges` that starts at `src`.
pub open spec fn reachable_in(edges: Seq<Edge>, src: NodeID, k: nat, n: NodeID) -> bool {
    exists|p: Seq<NodeID>|
        #[trigger] is_walk(edges, p) && p.len() == k + 1 && p[0] == src && p[k as int] == n
}

/// Some walk from `src` to `n` has between `min` and `max` edges.
pub open spec fn connected_between(
    edges: Seq<Edge>,
    src: NodeID,
    n: NodeID,
    min: nat,
    max: nat,
) -> bool {
    exists|k: nat| min <= k <= max && #[trigger] reachable_in(edges, src, k, n)
}

/// The targets of the edges in `edges` that leave `node`, in order.
pub open spec fn targets_of(edges: Seq<Edge>, node: NodeID) -> Seq<NodeID>
    decreases edges.len(),
{
    if edges.len() == 0 {
        Seq::empty()
    } else {
        let rest = targets_of(edges.drop_last(), node);
        if edges.last().source == node {
            rest.push(edges.last().target)
        } else {
            rest
        }
    }
}

/// The annotations registered for `edge`, in order.
pub open spec fn annos_of_edge(e: Seq<(Edge, Annotation)>, edge: Edge) -> Seq<Annotation>
    decreases e.len(),
{
    if e.len() == 0 {
        Seq::empty()
    } else {
        let rest = annos_of_edge(e.drop_last(), edge);
        if e.last().0 == edge {
            rest.push(e.last().1)
        } else {
            rest
        }
    }
}

/// The walks of no edge.
proof fn lemma_reach_zero(edges: Seq<Edge>, src: NodeID, n: NodeID)
    ensures
        reachable_in(edges, src, 0, n) == (n == src),
{
    if n == src {
        assert(is_walk(edges, seq![src]));
    }
}

/// One more step of a walk.
proof fn lemma_reach_step(edges: Seq<Edge>, src: NodeID, k: nat, n: NodeID)
    ensures
        reachable_in(edges, src, k + 1, n) == exists|i: int|
            0 <= i < edges.len() && edges[i].target == n && #[trigger] reachable_in(
                edges,
                src,
                k,
                edges[i].source,
            ),
{
    if reachable_in(edges, src, k + 1, n) {
        let p = choose|p: Seq<NodeID>|
            #[trigger] is_walk(edges, p) && p.len() == k + 2 && p[0] == src && p[k + 1 as int] == n;
        let q = p.take(k + 1 as int);
        assert forall|i: int| 0 <= i < q.len() - 1 implies #[trigger] linked(edges, q[i], q[i + 1]) by {
            assert(linked(edges, p[i], p[i + 1]));
        }
        assert(is_walk(edges, q));
        assert(linked(edges, p[k as int], p[k + 1 as int]));
        let i = choose|i: int|
            0 <= i < edges.len() && edges[i] == Edge { source: p[k as int], target: p[k + 1 as int] };
        assert(reachable_in(edges, src, k, edges[i].source));
    }
    if exists|i: int|
        0 <= i < edges.len() && edges[i].target == n && #[trigger] reachable_in(
            edges,
            src,
            k,
            edges[i].source,
        ) {
        let i = choose|i: int|
            0 <= i < edges.len() && edges[i].target == n && #[trigger] reachable_in(
                edges,
                src,
                k,
                edges[i].source,
            );
        let q = choose|q: Seq<NodeID>|
            #[trigger] is_walk(edges, q) && q.len() == k + 1 && q[0] == src && q[k as int]
                == edges[i].source;
        let p = q.push(n);
        assert forall|j: int| 0 <= j < p.len() - 1 implies #[trigger] linked(edges, p[j], p[j + 1]) by {
            if j < k {
                assert(linked(edges, q[j], q[j + 1]));
            } else {
                assert(edges[i] == Edge { source: p[j], target: p[j + 1] });
            }
        }
        assert(is_walk(edges, p));
        assert(reachable_in(edges, src, k + 1, n));
    }
}

/// Once nothing is reachable in `k` steps, nothing is reachable in more.
proof fn lemma_dead_end(edges: Seq<Edge>, src: NodeID, k: nat, j: nat)
    requires
        forall|n: NodeID| !reachable_in(edges, src, k, n),
        k <= j,
    ensures
        forall|n: NodeID| !reachable_in(edges, src, j, n),
    decreases j - k,
{
    if j > k {
        lemma_dead_end(edges, src, k, (j - 1) as nat);
        assert forall|n: NodeID| !reachable_in(edges, src, j, n) by {
            lemma_reach_step(edges, src, (j - 1) as nat, n);
        }
    }
}

/// The edges of one component and their annotations.
pub struct GraphStorage {
    edges: Vec<Edge>,
    edge_annos: Vec<(Edge, Annotation)>,
}

impl GraphStorage {
    /// The edges, in order of insertion.
    pub closed spec fn edges(&self) -> Seq<Edge> {
        self.edges@
    }

    /// The edge annotations, in order of insertion.
    pub closed spec fn annos(&self) -> Seq<(Edge, Annotation)> {
        self.edge_annos@
    }

    /// No edge is stored twice.
    pub open spec fn wf(&self) -> bool {
        self.edges().no_duplicates()
    }

    /// A storage without edges.
    pub fn new() -> (r: GraphStorage)
        ensures
            r.wf(),
            r.edges() == Seq::<Edge>::empty(),
            r.annos() == Seq::<(Edge, Annotation)>::empty(),
    {
        GraphStorage { edges: Vec::new(), edge_annos: Vec::new() }
    }

    /// Whether `e` is stored.
    pub fn has_edge(&self, e: Edge) -> (r: bool)
        ensures
            r == self.edges().contains(e),
    {
        let mut i: usize = 0;
        while i < self.edges.len()
            invariant
                i <= self.edges@.len(),
                forall|k: int| 0 <= k < i ==> self.edges@[k] != e,
            decreases self.edges@.len() - i,
        {
            if self.edges[i] == e {
                return true;
            }
            i += 1;
        }
        false
    }

    /// Add edge `e`; an edge that is already stored is kept once.
    pub fn add_edge(&mut self, e: Edge)
        requires
            old(self).wf(),
        ensures
            final(self).wf(),
            final(self).annos() == old(self).annos(),
            final(self).edges() == if old(self).edges().contains(e) {
                old(self).edges()
            } else {
                old(self).edges().push(e)
            },
    {
        if !self.has_edge(e) {
            self.edges.push(e);
            assert forall|i: int, j: int|
                0 <= i < self.edges@.len() && 0 <= j < self.edges@.len() && i != j implies
                self.edges@[i] != self.edges@[j] by {
                if i < old(self).edges().len() && j < old(self).edges().len() {
                    assert(old(self).edges()[i] != old(self).edges()[j]);
                } else if i < old(self).edges().len() {
                    assert(old(self).edges().contains(self.edges@[i]));
                } else {
                    assert(old(self).edges().contains(self.edges@[j]));
                }
            }
        }
    }

    /// Register annotation `a` on edge `e`.
    pub fn add_edge_anno(&mut self, e: Edge, a: Annotation)
        ensures
            final(self).edges() == old(self).edges(),
            final(self).annos() == old(self).annos().push((e, a)),
    {
        self.edge_annos.push((e, a));
    }

    /// The targets of the edges that leave `node`, in order of insertion.
    pub fn get_outgoing_edges(&self, node: NodeID) -> (r: Vec<NodeID>)
        ensures
            r@ == targets_of(self.edges(), node),
    {
        let mut r: Vec<NodeID> = Vec::new();
        let mut i: usize = 0;
        while i < self.edges.len()
            invariant
                i <= self.edges@.len(),
                r@ == targets_of(self.edges@.take(i as int), node),
            decreases self.edges@.len() - i,
        {
            assert(self.edges@.take(i + 1).drop_last() =~= self.edges@.take(i as int));
            let e = self.edges[i];
            if e.source == node {
                r.push(e.target);
            }
            i += 1;
        }
        assert(self.edges@.take(i as int) =~= self.edges@);
        r
    }

    /// All annotations of `edge`, in order of registration.
    pub fn get_edge_annos(&self, edge: &Edge) -> (r: Vec<Annotation>)
        ensures
            r@ == annos_of_edge(self.annos(), *edge),
    {
        let mut r: Vec<Annotation> = Vec::new();
        let mut i: usize = 0;
        while i < self.edge_annos.len()
            invariant
                i <= self.edge_annos@.len(),
                r@ == annos_of_edge(self.edge_annos@.take(i as int), *edge),
            decreases self.edge_annos@.len() - i,
        {
            assert(self.edge_annos@.take(i + 1).drop_last() =~= self.edge_annos@.take(i as int));
            let (e, a) = self.edge_annos[i];
            if e == *edge {
                r.push(a);
            }
            i += 1;
        }
        assert(self.edge_annos@.take(i as int) =~= self.edge_annos@);
        r
    }

    /// The nodes one edge away from some node of `frontier`, each once.
    fn step(&self, frontier: &Vec<NodeID>) -> (r: Vec<NodeID>)
        ensures
            forall|n: NodeID|
                r@.contains(n) <==> exists|i: int|
                    0 <= i < self.edges@.len() && self.edges@[i].target == n
                        && frontier@.contains(#[trigger] self.edges@[i].source),
    {
        let mut r: Vec<NodeID> = Vec::new();
        let mut i: usize = 0;
        while i < self.edges.len()
            invariant
                i <= self.edges@.len(),
                forall|n: NodeID|
                    r@.contains(n) <==> exists|j: int|
                        0 <= j < i && self.edges@[j].target == n && frontier@.contains(
                            #[trigger] self.edges@[j].source,
                        ),
            decreases self.edges@.len() - i,
        {
            let e = self.edges[i];
            let ghost old_r = r@;
            if contains_node(frontier, e.source) && !contains_node(&r, e.target) {
                r.push(e.target);
            }
            assert forall|n: NodeID|
                r@.contains(n) <== exists|j: int|
                    0 <= j < i + 1 && self.edges@[j].target == n && frontier@.contains(
                        #[trigger] self.edges@[j].source,
                    ) by {
                if exists|j: int|
                    0 <= j < i + 1 && self.edges@[j].target == n && frontier@.contains(
                        #[trigger] self.edges@[j].source,
                    ) {
                    let j = choose|j: int|
                        0 <= j < i + 1 && self.edges@[j].target == n && frontier@.contains(
                            #[trigger] self.edges@[j].source,
                        );
                    if j < i {
                        assert(old_r.contains(n));
                        let x = choose|x: int| 0 <= x < old_r.len() && old_r[x] == n;
                        assert(r@[x] == n);
                    } else if r@.len() > old_r.len() {
                        assert(r@[old_r.len() as int] == n);
                    }
                }
            }
            assert forall|n: NodeID|
                r@.contains(n) ==> exists|j: int|
                    0 <= j < i + 1 && self.edges@[j].target == n && frontier@.contains(
                        #[trigger] self.edges@[j].source,
                    ) by {
                if r@.contains(n) {
                    let x = choose|x: int| 0 <= x < r@.len() && r@[x] == n;
                    if x < old_r.len() {
                        assert(old_r.contains(n));
                    } else {
                        assert(self.edges@[i as int].target == n);
                    }
                }
            }
            i += 1;
        }
        r
    }

    /// The nodes that a walk of between `min` and `max` edges leads to from
    /// `src`, each once.
    pub fn find_connected(&self, src: NodeID, min: usize, max: usize) -> (r: Vec<NodeID>)
        ensures
            forall|n: NodeID|
                r@.contains(n) <==> connected_between(self.edges(), src, n, min as nat, max as nat),
    {
        let mut r: Vec<NodeID> = Vec::new();
        let mut frontier: Vec<NodeID> = Vec::new();
        frontier.push(src);
        let mut k: usize = 0;
        assert forall|n: NodeID| frontier@.contains(n) <==> reachable_in(self.edges(), src, 0, n) by {
            lemma_reach_zero(self.edges(), src, n);
            if n == src {
                assert(frontier@[0] == n);
            }
        }
        while k <= max && frontier.len() > 0
            invariant
                forall|n: NodeID| frontier@.contains(n) <==> reachable_in(self.edges(), src, k as nat, n),
                forall|n: NodeID|
                    r@.contains(n) <==> exists|j: nat|
                        min <= j < k && j <= max && #[trigger] reachable_in(self.edges(), src, j, n),
            decreases max - k,
        {
            let ghost old_r = r@;
            if k >= min {
                let mut i: usize = 0;
                while i < frontier.len()
                    invariant
                        i <= frontier@.len(),
                        forall|n: NodeID|
                            r@.contains(n) <==> (old_r.contains(n) || frontier@.take(
                                i as int,
                            ).contains(n)),
                    decreases frontier@.len() - i,
                {
                    let n = frontier[i];
                    let ghost before = r@;
                    assert(forall|m: NodeID| before.contains(m) <==> (old_r.contains(m) || frontier@.take(
                            i as int,
                        ).contains(m)));
                    if !contains_node(&r, n) {
                        r.push(n);
                    }
                    i += 1;
                    assert(frontier@.take(i as int) =~= frontier@.take(i - 1).push(n));
                    assert forall|m: NodeID|
                        r@.contains(m) <==> (old_r.contains(m) || frontier@.take(i as int).contains(
                            m,
                        )) by {
                        vstd::seq_lib::lemma_seq_contains_after_push(
                            frontier@.take(i - 1),
                            n,
                            m,
                        );
                        assert(before.contains(m) <==> (old_r.contains(m) || frontier@.take(
                            i - 1,
                        ).contains(m)));
                        if r@.len() > before.len() {
                            assert(r@ == before.push(n));
                            vstd::seq_lib::lemma_seq_contains_after_push(before, n, m);
                        } else {
                            assert(r@ == before);
                            assert(r@.contains(n));
                        }
                    }
                }
                assert(frontier@.take(i as int) =~= frontier@);
            }
            assert forall|n: NodeID|
                r@.contains(n) <==> exists|j: nat|
                    min <= j < k + 1 && j <= max && #[trigger] reachable_in(self.edges(), src, j, n) by {
                assert(old_r.contains(n) <==> exists|j: nat|
                    min <= j < k && j <= max && #[trigger] reachable_in(self.edges(), src, j, n));
                assert(frontier@.contains(n) <==> reachable_in(self.edges(), src, k as nat, n));
                if k >= min {
                    assert(r@.contains(n) <==> (old_r.contains(n) || frontier@.contains(n)));
                } else {
                    assert(r@ == old_r);
                }
                if exists|j: nat|
                    min <= j < k + 1 && j <= max && #[trigger] reachable_in(self.edges(), src, j, n) {
                    let j = choose|j: nat|
                        min <= j < k + 1 && j <= max && #[trigger] reachable_in(self.edges(), src, j, n);
                    if j < k {
                        assert(old_r.contains(n));
                    }
                }
            }
            if k == max {
                assert(k + 1 > max);
                assert forall|n: NodeID|
                    r@.contains(n) <==> connected_between(self.edges(), src, n, min as nat, max as nat) by {
                    if connected_between(self.edges(), src, n, min as nat, max as nat) {
                        let j = choose|j: nat| min <= j <= max && #[trigger] reachable_in(self.edges(), src, j, n);
                        assert(j < k + 1);
                    }
                }
                return r;
            }
            let next = self.step(&frontier);
            assert forall|n: NodeID| next@.contains(n) <==> reachable_in(self.edges(), src, (k + 1) as nat, n) by {
                lemma_reach_step(self.edges(), src, k as nat, n);
                if reachable_in(self.edges(), src, (k + 1) as nat, n) {
                    let i = choose|i: int|
                        0 <= i < self.edges().len() && self.edges()[i].target == n && #[trigger] reachable_in(
                            self.edges(),
                            src,
                            k as nat,
                            self.edges()[i].source,
                        );
                    assert(frontier@.contains(self.edges()[i].source));
                }
                if next@.contains(n) {
                    let i = choose|i: int|
                        0 <= i < self.edges().len() && self.edges()[i].target == n
                            && frontier@.contains(#[trigger] self.edges()[i].source);
                    assert(reachable_in(self.edges(), src, k as nat, self.edges()[i].source));
                    assert(reachable_in(self.edges(), src, (k + 1) as nat, n));
                }
            }
            frontier = next;
            k += 1;
        }
        proof {
            if k <= max {
                assert(frontier@.len() == 0);
                assert forall|n: NodeID| !reachable_in(self.edges(), src, k as nat, n) by {
                    if reachable_in(self.edges(), src, k as nat, n) {
                        assert(frontier@.contains(n));
                    }
                }
                assert forall|n: NodeID|
                    r@.contains(n) <==> connected_between(self.edges(), src, n, min as nat, max as nat) by {
                    if connected_between(self.edges(), src, n, min as nat, max as nat) {
                        let j = choose|j: nat| min <= j <= max && #[trigger] reachable_in(self.edges(), src, j, n);
                        if j >= k {
                            lemma_dead_end(self.edges(), src, k as nat, j);
                        }
                    }
                }
            }
        }
        r
    }

    /// The fewest edges of a walk from `src` to `tgt`, looking at walks of at
    /// most as many edges as are stored; `None` when there is no such walk.
    pub fn distance(&self, src: NodeID, tgt: NodeID) -> (r: Option<usize>)
        ensures
            r matches Some(d) ==> reachable_in(self.edges(), src, d as nat, tgt) && forall|k: nat|
                k < d ==> !#[trigger] reachable_in(self.edges(), src, k, tgt),
            r is None ==> forall|k: nat|
                k <= self.edges().len() ==> !#[trigger] reachable_in(self.edges(), src, k, tgt),
    {
        let mut frontier: Vec<NodeID> = Vec::new();
        frontier.push(src);
        let mut k: usize = 0;
        assert forall|n: NodeID| frontier@.contains(n) <==> reachable_in(self.edges(), src, 0, n) by {
            lemma_reach_zero(self.edges(), src, n);
            if n == src {
                assert(frontier@[0] == n);
            }
        }
        while k < self.edges.len()
            invariant
                k <= self.edges@.len(),
                forall|n: NodeID| frontier@.contains(n) <==> reachable_in(self.edges(), src, k as nat, n),
                forall|j: nat| j < k ==> !#[trigger] reachable_in(self.edges(), src, j, tgt),
            decreases self.edges@.len() - k,
        {
            if contains_node(&frontier, tgt) {
                return Some(k);
            }
            let next = self.step(&frontier);
            assert forall|n: NodeID| next@.contains(n) <==> reachable_in(self.edges(), src, (k + 1) as nat, n) by {
                lemma_reach_step(self.edges(), src, k as nat, n);
                if reachable_in(self.edges(), src, (k + 1) as nat, n) {
                    let i = choose|i: int|
                        0 <= i < self.edges().len() && self.edges()[i].target == n && #[trigger] reachable_in(
                            self.edges(),
                            src,
                            k as nat,
                            self.edges()[i].source,
                        );
                    assert(frontier@.contains(self.edges()[i].source));
                }
            }
            assert forall|j: nat| j < k + 1 implies !#[trigger] reachable_in(self.edges(), src, j, tgt) by {
                if j == k {
                    assert(!frontier@.contains(tgt));
                }
            }
            frontier = next;
            k += 1;
        }
        if contains_node(&frontier, tgt) {
            return Some(k);
        }
        assert forall|j: nat| j <= self.edges().len() implies !#[trigger] reachable_in(self.edges(), src, j, tgt) by {
            if j == k {
                assert(!frontier@.contains(tgt));
            }
        }
        None
    }

    /// Whether some walk from `src` to `tgt` has between `min` and `max` edges.
    pub fn is_connected(&self, src: NodeID, tgt: NodeID, min: usize, max: usize) -> (r: bool)
        ensures
            r == connected_between(self.edges(), src, tgt, min as nat, max as nat),
    {
        let found = self.find_connected(src, min, max);
        contains_node(&found, tgt)
    }
}

} // verus!
