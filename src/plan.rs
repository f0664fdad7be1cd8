//! The planner: lowers a conjunction to a join order over its node searches,
//! choosing an index join where the operator can produce the right-hand side.

use vstd::prelude::*;
use vstd::set_lib::*;
use crate::exec::{copy_row, execute_conjunction, has_row, row_satisfies};
use crate::graphdb::GraphDB;
use crate::query::{Conjunction, Disjunction};
use crate::search::{node_matches, node_search};
use crate::types::{AnnoKey, Match, NodeID};

verus! {

/// Why a conjunction could not be planned.
#[derive(Clone, Copy, Debug, PartialEq, Eq, Structural)]
pub enum PlanError {
    /// The conjunction has no node.
    NoNodes,
    /// An operator refers to a position without a node.
    UnknownVariable,
    /// A component that an operator consults is not loaded.
    MissingComponent,
    /// The operators do not link all nodes.
    Unconnected,
}

/// `s` splits the positions of `q` into two non-empty parts.
pub open spec fn splits(q: &Conjunction, s: Set<int>) -> bool {
    &&& exists|a: int| 0 <= a < q.nodes@.len() && s.contains(a)
    &&& exists|b: int| 0 <= b < q.nodes@.len() && !s.contains(b)
}

/// Some operator of `q` links a position inside `s` with one outside.
pub open spec fn crossed(q: &Conjunction, s: Set<int>) -> bool {
    exists|j: int|
        0 <= j < q.operators@.len() && s.contains((#[trigger] q.operators@[j]).lhs as int)
            != s.contains(q.operators@[j].rhs as int)
}

/// The operators link all nodes: every split of the positions is crossed by
/// an operator.
pub open spec fn connected(q: &Conjunction) -> bool {
    forall|s: Set<int>| #[trigger] splits(q, s) ==> crossed(q, s)
}

/// Step `u` of `order` was joined through an operator to an earlier step.
pub open spec fn link_at(q: &Conjunction, order: Seq<usize>, links: Seq<(int, int)>, u: int) -> bool {
    let (j, s) = links[u];
    &&& 0 <= j < q.operators@.len()
    &&& 0 <= s < u
    &&& ((q.operators@[j].lhs == order[u] && q.operators@[j].rhs == order[s]) || (
    q.operators@[j].rhs == order[u] && q.operators@[j].lhs == order[s]))
}

/// Every step after the first was joined to an earlier one.
pub open spec fn links_ok(q: &Conjunction, order: Seq<usize>, links: Seq<(int, int)>) -> bool {
    &&& links.len() == order.len()
    &&& forall|u: int| 1 <= u < order.len() ==> #[trigger] link_at(q, order, links, u)
}

/// When the steps of a join order are linked, a split that separates some
/// step from the first one is crossed by an operator.
proof fn lemma_order_crossed(
    q: &Conjunction,
    order: Seq<usize>,
    links: Seq<(int, int)>,
    s: Set<int>,
    t: int,
)
    requires
        links_ok(q, order, links),
        0 <= t < order.len(),
        s.contains(order[t] as int) != s.contains(order[0] as int),
    ensures
        crossed(q, s),
    decreases t,
{
    assert(link_at(q, order, links, t));
    let (j, u) = links[t];
    if s.contains(order[u] as int) == s.contains(order[0] as int) {
        assert(s.contains(q.operators@[j].lhs as int) != s.contains(q.operators@[j].rhs as int));
    } else {
        lemma_order_crossed(q, order, links, s, u);
    }
}

/// Every operator's component is loaded.
pub open spec fn components_loaded(db: &GraphDB, q: &Conjunction) -> bool {
    forall|j: int|
        0 <= j < q.operators@.len() ==> db.loaded().contains(
            (#[trigger] q.operators@[j]).op.component(),
        )
}

/// A join order for a conjunction: `order[t]` is the position bound at step
/// `t`, `pos` its inverse, `index_op[t]` the operator of an index join that binds
/// step `t`, and `candidates[v]` the results of the search at position `v`.
pub struct ConjunctionPlan {
    pub order: Vec<usize>,
    pub pos: Vec<usize>,
    pub index_op: Vec<Option<usize>>,
    pub candidates: Vec<Vec<Match>>,
}

impl ConjunctionPlan {
    /// The plan fits conjunction `q` on `db`.
    pub open spec fn wf(&self, db: &GraphDB, q: &Conjunction) -> bool {
        let n = q.nodes@.len();
        let ord = self.order@;
        let pos = self.pos@;
        &&& q.wf()
        &&& db.wf()
        &&& components_loaded(db, q)
        &&& pos.len() == n
        &&& self.index_op@.len() == ord.len()
        &&& self.candidates@.len() == n
        &&& forall|t: int| 0 <= t < ord.len() ==> #[trigger] ord[t] < n && pos[ord[t] as int] == t
        &&& forall|v: int| 0 <= v < n ==> #[trigger] pos[v] < ord.len() && ord[pos[v] as int] == v
        &&& forall|v: int, m: Match|
            0 <= v < n ==> (#[trigger] self.candidates@[v]@.contains(m) <==> node_matches(
                db,
                &q.nodes@[v],
                m,
            ))
        &&& forall|t: int|
            0 <= t < ord.len() ==> (#[trigger] self.index_op@[t] matches Some(j) ==> (0 <= j
                < q.operators@.len() && q.operators@[j as int].rhs == ord[t] && pos[q.operators@[j as int].lhs as int] < t))
    }
}

/// Plan conjunction `q` on `db`. The first node is the one with the fewest
/// search results; each further node is joined through the operator that
/// links it to the nodes joined so far with the fewest search results,
/// earliest operator first. With `use_index_join`, a node on the right-hand
/// side of that operator is found through the operator.
pub fn plan_conjunction(db: &GraphDB, q: &Conjunction, use_index_join: bool) -> (r: Result<
    ConjunctionPlan,
    PlanError,
>)
    requires
        db.wf(),
    ensures
        r matches Ok(p) ==> p.wf(db, q),
        (r matches Err(PlanError::NoNodes)) <==> q.nodes@.len() == 0,
        (r matches Err(PlanError::UnknownVariable)) <==> (q.nodes@.len()
            > 0 && !q.wf()),
        (r matches Err(PlanError::MissingComponent)) <==> (
        q.nodes@.len() > 0 && q.wf() && !components_loaded(db, q)),
        (r matches Err(PlanError::Unconnected)) <==> (q.nodes@.len() > 0 && q.wf()
            && components_loaded(db, q) && !connected(q)),
        (q.nodes@.len() > 0 && q.wf() && components_loaded(db, q) && connected(q)) ==> r is Ok,
{
    let n = q.nodes.len();
    if n == 0 {
        return Err(PlanError::NoNodes);
    }
    if q.variables.len() != n {
        return Err(PlanError::UnknownVariable);
    }
    let mut j: usize = 0;
    while j < q.operators.len()
        invariant
            j <= q.operators@.len(),
            n == q.nodes@.len(),
            n == q.variables@.len(),
            n > 0,
            forall|k: int|
                0 <= k < j ==> (#[trigger] q.operators@[k]).lhs < n && q.operators@[k].rhs < n,
        decreases q.operators@.len() - j,
    {
        if q.operators[j].lhs >= n || q.operators[j].rhs >= n {
            return Err(PlanError::UnknownVariable);
        }
        j += 1;
    }
    let mut j: usize = 0;
    while j < q.operators.len()
        invariant
            j <= q.operators@.len(),
            db.wf(),
            n == q.nodes@.len(),
            n > 0,
            q.wf(),
            forall|k: int|
                0 <= k < j ==> db.loaded().contains((#[trigger] q.operators@[k]).op.component()),
        decreases q.operators@.len() - j,
    {
        if !db.is_loaded(&q.operators[j].op.necessary_component()) {
            return Err(PlanError::MissingComponent);
        }
        j += 1;
    }
    // the search results of every node, and the node with the fewest
    let mut candidates: Vec<Vec<Match>> = Vec::new();
    let mut start: usize = 0;
    let mut v: usize = 0;
    while v < n
        invariant
            n == q.nodes@.len(),
            db.wf(),
            q.wf(),
            components_loaded(db, q),
            v <= n,
            candidates@.len() == v,
            start < n,
            v == 0 ==> start == 0,
            v > 0 ==> start < v,
            forall|x: int, m: Match|
                0 <= x < v ==> (#[trigger] candidates@[x]@.contains(m) <==> node_matches(
                    db,
                    &q.nodes@[x],
                    m,
                )),
        decreases n - v,
    {
        let c = node_search(db, &q.nodes[v]);
        if v > 0 && c.len() < candidates[start].len() {
            start = v;
        }
        candidates.push(c);
        v += 1;
    }
    let mut in_tree: Vec<bool> = Vec::new();
    let mut pos: Vec<usize> = Vec::new();
    let mut v: usize = 0;
    while v < n
        invariant
            v <= n,
            start < n,
            in_tree@.len() == v,
            pos@.len() == v,
            forall|x: int| 0 <= x < v ==> !(#[trigger] in_tree@[x]) && pos@[x] == 0,
        decreases n - v,
    {
        in_tree.push(false);
        pos.push(0);
        v += 1;
    }
    assert(!in_tree@[start as int] && pos@[start as int] == 0);
    in_tree.set(start, true);
    let mut order: Vec<usize> = Vec::new();
    order.push(start);
    let mut index_op: Vec<Option<usize>> = Vec::new();
    index_op.push(None);
    let ghost mut tree: Set<int> = set![start as int];
    let ghost mut links: Seq<(int, int)> = seq![(0, 0)];
    proof {
        lemma_int_range(0, n as int);
    }
    assert forall|x: int| 0 <= x < n implies (#[trigger] in_tree@[x] <==> x == start) by {}
    assert(order@[0] == start && pos@[start as int] == 0);
    while order.len() < n
        invariant
            n == q.nodes@.len(),
            q.wf(),
            db.wf(),
            components_loaded(db, q),
            candidates@.len() == n,
            forall|x: int, m: Match|
                0 <= x < n ==> (#[trigger] candidates@[x]@.contains(m) <==> node_matches(
                    db,
                    &q.nodes@[x],
                    m,
                )),
            1 <= order@.len() <= n,
            in_tree@.len() == n,
            pos@.len() == n,
            index_op@.len() == order@.len(),
            links_ok(q, order@, links),
            forall|t: int|
                0 <= t < order@.len() ==> #[trigger] order@[t] < n && in_tree@[order@[t] as int]
                    && pos@[order@[t] as int] == t,
            forall|x: int|
                0 <= x < n && #[trigger] in_tree@[x] ==> pos@[x] < order@.len() && order@[pos@[x] as int] == x,
            forall|x: int| 0 <= x < n ==> (#[trigger] in_tree@[x] <==> tree.contains(x)),
            tree.subset_of(set_int_range(0, n as int)),
            set_int_range(0, n as int).len() == n,
            set_int_range(0, n as int).finite(),
            tree.finite(),
            tree.len() == order@.len(),
            tree.contains(start as int),
            start < n,
            forall|t: int|
                0 <= t < order@.len() ==> (#[trigger] index_op@[t] matches Some(j) ==> (0 <= j
                    < q.operators@.len() && q.operators@[j as int].rhs == order@[t]
                    && pos@[q.operators@[j as int].lhs as int] < t && in_tree@[q.operators@[j as int].lhs as int])),
        decreases n - order@.len(),
    {
        let mut best: Option<(usize, usize)> = None;
        let mut best_cost: usize = 0;
        let mut j: usize = 0;
        while j < q.operators.len()
            invariant
                n == q.nodes@.len(),
                q.wf(),
                in_tree@.len() == n,
                candidates@.len() == n,
                j <= q.operators@.len(),
                best matches Some(b) ==> b.0 < q.operators@.len() && b.1 < n && !in_tree@[b.1 as int]
                    && (b.1 == q.operators@[b.0 as int].rhs || b.1
                    == q.operators@[b.0 as int].lhs) && in_tree@[q.operators@[b.0 as int].lhs as int]
                    != in_tree@[q.operators@[b.0 as int].rhs as int],
                best is None ==> forall|k: int|
                    0 <= k < j ==> in_tree@[(#[trigger] q.operators@[k]).lhs as int]
                        == in_tree@[q.operators@[k].rhs as int],
            decreases q.operators@.len() - j,
        {
            let l = q.operators[j].lhs;
            let r = q.operators[j].rhs;
            assert(l < n && r < n) by {
                assert(q.operators@[j as int].lhs < n);
            }
            if in_tree[l] != in_tree[r] {
                let new_node = if in_tree[l] {
                    r
                } else {
                    l
                };
                let cost = candidates[new_node].len();
                if best.is_none() || cost < best_cost {
                    best = Some((j, new_node));
                    best_cost = cost;
                }
            }
            j += 1;
        }
        match best {
            None => {
                proof {
                    assert(splits(q, tree)) by {
                        if forall|b: int| 0 <= b < n ==> tree.contains(b) {
                            assert(set_int_range(0, n as int).subset_of(tree));
                            lemma_len_subset(set_int_range(0, n as int), tree);
                        }
                    }
                    assert(!crossed(q, tree)) by {
                        assert forall|k: int| 0 <= k < q.operators@.len() implies tree.contains(
                            (#[trigger] q.operators@[k]).lhs as int,
                        ) == tree.contains(q.operators@[k].rhs as int) by {
                            assert(in_tree@[q.operators@[k].lhs as int] == in_tree@[q.operators@[k].rhs as int]);
                        }
                    }
                }
                return Err(PlanError::Unconnected);
            },
            Some((j, new_node)) => {
                let t = order.len();
                proof {
                    assert(!tree.contains(new_node as int));
                    lemma_len_subset(tree.insert(new_node as int), set_int_range(0, n as int));
                    tree = tree.insert(new_node as int);
                }
                let ghost old_order = order@;
                let ghost old_pos = pos@;
                let ghost old_in = in_tree@;
                let ghost old_index_op = index_op@;
                let ghost old_links = links;
                proof {
                    let o = q.operators@[j as int];
                    let other = if o.lhs == new_node { o.rhs } else { o.lhs };
                    assert(in_tree@[other as int]);
                    links = links.push((j as int, pos@[other as int] as int));
                }
                pos.set(new_node, t);
                order.push(new_node);
                in_tree.set(new_node, true);
                let is_rhs = new_node == q.operators[j].rhs;
                if use_index_join && is_rhs {
                    index_op.push(Some(j));
                } else {
                    index_op.push(None);
                }
                assert forall|u: int| 1 <= u < order@.len() implies link_at(q, order@, links, u) by {
                    if u < t {
                        assert(link_at(q, old_order, old_links, u));
                        assert(old_links[u] == links[u]);
                        assert(old_order[u] == order@[u]);
                    }
                }
                assert forall|x: int| 0 <= x < n && #[trigger] in_tree@[x] implies pos@[x] < order@.len()
                    && order@[pos@[x] as int] == x by {
                    if x != new_node {
                        assert(old_in[x]);
                    }
                }
                assert forall|s: int|
                    0 <= s < order@.len() implies (#[trigger] index_op@[s] matches Some(jj) ==> (0 <= jj
                        < q.operators@.len() && q.operators@[jj as int].rhs == order@[s]
                        && pos@[q.operators@[jj as int].lhs as int] < s && in_tree@[q.operators@[jj as int].lhs as int])) by {
                    if s < t {
                        assert(index_op@[s] == old_index_op[s]);
                        if let Some(jj) = index_op@[s] {
                            let lhs = q.operators@[jj as int].lhs as int;
                            assert(old_in[lhs]);
                            assert(lhs != new_node);
                        }
                    } else {
                        if let Some(jj) = index_op@[s] {
                            let lhs = q.operators@[jj as int].lhs as int;
                            assert(old_in[lhs]);
                        }
                    }
                }
            },
        }
    }
    proof {
        assert forall|x: int| 0 <= x < n implies #[trigger] pos@[x] < order@.len() && order@[pos@[x] as int] == x by {
            if !in_tree@[x] {
                assert(!tree.contains(x));
                assert(tree.subset_of(set_int_range(0, n as int)));
                tree.lemma_subset_not_in_lt(set_int_range(0, n as int), x);
            }
        }
        assert forall|s: Set<int>| #[trigger] splits(q, s) implies crossed(q, s) by {
            let a = choose|a: int| 0 <= a < q.nodes@.len() && s.contains(a);
            let b = choose|b: int| 0 <= b < q.nodes@.len() && !s.contains(b);
            assert(order@[pos@[a] as int] == a && order@[pos@[b] as int] == b);
            if s.contains(order@[0] as int) {
                lemma_order_crossed(q, order@, links, s, pos@[b] as int);
            } else {
                lemma_order_crossed(q, order@, links, s, pos@[a] as int);
            }
        }
    }
    Ok(ConjunctionPlan { order, pos, index_op, candidates })
}

/// How queries are executed.
pub struct Config {
    /// Find the right-hand side of a join through its operator where possible.
    pub use_index_join: bool,
}

/// Why a query could not be executed.
#[derive(Debug)]
pub enum Error {
    /// No alternative could be planned; the reason for each, in order.
    ImpossibleSearch(Vec<PlanError>),
}

/// The reason the planner gives for refusing `q` on `db`.
pub open spec fn plan_error(db: &GraphDB, q: &Conjunction) -> PlanError {
    if q.nodes@.len() == 0 {
        PlanError::NoNodes
    } else if !q.wf() {
        PlanError::UnknownVariable
    } else if !components_loaded(db, q) {
        PlanError::MissingComponent
    } else {
        PlanError::Unconnected
    }
}

/// The planner accepts `q` on `db`.
pub open spec fn plannable(db: &GraphDB, q: &Conjunction) -> bool {
    &&& q.nodes@.len() > 0
    &&& q.wf()
    &&& components_loaded(db, q)
    &&& connected(q)
}

/// What tells rows apart: the node and the annotation key of each column.
pub open spec fn row_key(row: Seq<Match>) -> Seq<(NodeID, AnnoKey)> {
    row.map_values(|m: Match| (m.node, m.anno.key))
}

/// `row` matches one of the first `n` alternatives, which is plannable.
pub open spec fn matches_some(db: &GraphDB, alts: Seq<Conjunction>, n: int, row: Seq<Match>) -> bool {
    exists|a: int|
        0 <= a < n && plannable(db, &alts[a]) && #[trigger] row_satisfies(db, &alts[a], row)
}

/// Some row of `out` has the key of `row`.
pub open spec fn key_in(out: Seq<Vec<Match>>, row: Seq<Match>) -> bool {
    exists|k: int| 0 <= k < out.len() && #[trigger] row_key(out[k]@) == row_key(row)
}

/// No two rows of `out` share a key.
pub open spec fn distinct_keys(out: Seq<Vec<Match>>) -> bool {
    forall|k1: int, k2: int|
        0 <= k1 < out.len() && 0 <= k2 < out.len() && k1 != k2 ==> row_key(#[trigger] out[k1]@)
            != row_key(#[trigger] out[k2]@)
}

/// `out` is the result of the alternatives `alts` on `db`: each row matches a
/// plannable alternative, with column `i` for its node `i`; every match of a
/// plannable alternative has its key among the rows; no two rows share a key.
pub open spec fn is_query_result(db: &GraphDB, alts: Seq<Conjunction>, out: Seq<Vec<Match>>) -> bool {
    &&& forall|k: int| 0 <= k < out.len() ==> matches_some(db, alts, alts.len() as int, #[trigger] out[k]@)
    &&& forall|a: int, row: Seq<Match>|
        0 <= a < alts.len() && plannable(db, &alts[a]) && #[trigger] row_satisfies(db, &alts[a], row)
            ==> key_in(out, row)
    &&& distinct_keys(out)
}

/// Two results of the same alternatives have the same number of rows.
pub proof fn lemma_result_count_unique(
    db: &GraphDB,
    alts: Seq<Conjunction>,
    out1: Seq<Vec<Match>>,
    out2: Seq<Vec<Match>>,
)
    requires
        is_query_result(db, alts, out1),
        is_query_result(db, alts, out2),
    ensures
        out1.len() == out2.len(),
{
    lemma_result_keys(db, alts, out1, out2);
    lemma_result_keys(db, alts, out2, out1);
}

/// The keys of one result of `alts` are among those of another.
proof fn lemma_result_keys(
    db: &GraphDB,
    alts: Seq<Conjunction>,
    out1: Seq<Vec<Match>>,
    out2: Seq<Vec<Match>>,
)
    requires
        is_query_result(db, alts, out1),
        is_query_result(db, alts, out2),
    ensures
        out1.len() <= out2.len(),
{
    let k1 = out1.map_values(|r: Vec<Match>| row_key(r@));
    let k2 = out2.map_values(|r: Vec<Match>| row_key(r@));
    assert(k1.no_duplicates()) by {
        assert forall|i: int, j: int| 0 <= i < k1.len() && 0 <= j < k1.len() && i != j implies k1[i]
            != k1[j] by {
            assert(distinct_keys(out1));
            assert(row_key(out1[i]@) != row_key(out1[j]@));
        }
    }
    assert(k2.no_duplicates()) by {
        assert forall|i: int, j: int| 0 <= i < k2.len() && 0 <= j < k2.len() && i != j implies k2[i]
            != k2[j] by {
            assert(distinct_keys(out2));
            assert(row_key(out2[i]@) != row_key(out2[j]@));
        }
    }
    assert(k1.to_set().subset_of(k2.to_set())) by {
        assert forall|x: Seq<(NodeID, AnnoKey)>| k1.to_set().contains(x) implies k2.to_set().contains(x) by {
            let i = choose|i: int| 0 <= i < k1.len() && k1[i] == x;
            assert(matches_some(db, alts, alts.len() as int, out1[i]@));
            let a = choose|a: int|
                0 <= a < alts.len() && plannable(db, &alts[a]) && #[trigger] row_satisfies(
                    db,
                    &alts[a],
                    out1[i]@,
                );
            assert(key_in(out2, out1[i]@));
            let k = choose|k: int| 0 <= k < out2.len() && #[trigger] row_key(out2[k]@) == row_key(out1[i]@);
            assert(k2[k] == x);
        }
    }
    k1.unique_seq_to_set();
    k2.unique_seq_to_set();
    vstd::set_lib::lemma_len_subset(k1.to_set(), k2.to_set());
}

/// A disjunction of two equal alternatives has as many rows as the
/// alternative alone.
pub proof fn lemma_duplicate_alternative_count(
    db: &GraphDB,
    q: Conjunction,
    out1: Seq<Vec<Match>>,
    out2: Seq<Vec<Match>>,
)
    requires
        is_query_result(db, seq![q, q], out1),
        is_query_result(db, seq![q], out2),
    ensures
        out1.len() == out2.len(),
{
    let two = seq![q, q];
    let one = seq![q];
    assert forall|k: int| 0 <= k < out1.len() implies matches_some(db, one, one.len() as int, #[trigger] out1[k]@) by {
        assert(matches_some(db, two, two.len() as int, out1[k]@));
        let a = choose|a: int| 0 <= a < two.len() && plannable(db, &two[a]) && #[trigger] row_satisfies(db, &two[a], out1[k]@);
        assert(two[a] == one[0]);
    }
    assert forall|a: int, row: Seq<Match>|
        0 <= a < one.len() && plannable(db, &one[a]) && #[trigger] row_satisfies(db, &one[a], row)
            implies key_in(out1, row) by {
        assert(one[a] == two[0]);
        assert(row_satisfies(db, &two[0], row));
    }
    lemma_result_count_unique(db, one, out1, out2);
}

/// The rows of `out` from position `offset` on, at most `limit` of them.
pub open spec fn page_of(out: Seq<Vec<Match>>, offset: int, limit: int) -> Seq<Seq<Match>> {
    let lo = if offset < out.len() { offset } else { out.len() as int };
    let hi = if limit < out.len() - lo { lo + limit } else { out.len() as int };
    out.subrange(lo, hi).map_values(|v: Vec<Match>| v@)
}

/// Whether two rows have the same key.
fn same_key(a: &Vec<Match>, b: &Vec<Match>) -> (r: bool)
    ensures
        r == (row_key(a@) == row_key(b@)),
{
    if a.len() != b.len() {
        assert(row_key(a@).len() != row_key(b@).len());
        return false;
    }
    let mut i: usize = 0;
    while i < a.len()
        invariant
            a@.len() == b@.len(),
            i <= a@.len(),
            forall|k: int| 0 <= k < i ==> row_key(a@)[k] == row_key(b@)[k],
        decreases a@.len() - i,
    {
        if a[i].node != b[i].node || a[i].anno.key != b[i].anno.key {
            assert(row_key(a@)[i as int] != row_key(b@)[i as int]);
            return false;
        }
        i += 1;
    }
    assert(row_key(a@) =~= row_key(b@));
    true
}

/// Whether some row of `out` has the key of `row`.
fn key_seen(out: &Vec<Vec<Match>>, row: &Vec<Match>) -> (r: bool)
    ensures
        r == exists|k: int| 0 <= k < out@.len() && #[trigger] row_key(out@[k]@) == row_key(row@),
{
    let mut k: usize = 0;
    while k < out.len()
        invariant
            k <= out@.len(),
            forall|x: int| 0 <= x < k ==> #[trigger] row_key(out@[x]@) != row_key(row@),
        decreases out@.len() - k,
    {
        if same_key(&out[k], row) {
            return true;
        }
        k += 1;
    }
    false
}

/// The row views of `rows`.
pub open spec fn views(rows: Seq<Vec<Match>>) -> Seq<Seq<Match>> {
    rows.map_values(|v: Vec<Match>| v@)
}

/// Some row of `out` has the key of `row`.
pub open spec fn key_seen_in(out: Seq<Seq<Match>>, row: Seq<Match>) -> bool {
    exists|k: int| 0 <= k < out.len() && #[trigger] row_key(out[k]) == row_key(row)
}

/// `out` followed by the rows of `rows`, in order, each dropped when a row
/// before it has its key.
pub open spec fn dedup_append(out: Seq<Seq<Match>>, rows: Seq<Seq<Match>>) -> Seq<Seq<Match>>
    decreases rows.len(),
{
    if rows.len() == 0 {
        out
    } else {
        let o = dedup_append(out, rows.drop_last());
        if key_seen_in(o, rows.last()) {
            o
        } else {
            o.push(rows.last())
        }
    }
}

/// The rows of `outs[0]`, `outs[1]`, ... in turn, each dropped when a row
/// before it has its key.
pub open spec fn dedup_concat(outs: Seq<Seq<Seq<Match>>>) -> Seq<Seq<Match>>
    decreases outs.len(),
{
    if outs.len() == 0 {
        Seq::empty()
    } else {
        dedup_append(dedup_concat(outs.drop_last()), outs.last())
    }
}

/// `rows` are the rows alternative `q` yields: all its matches when it can be
/// planned, none otherwise.
pub open spec fn alt_rows(db: &GraphDB, q: &Conjunction, rows: Seq<Seq<Match>>) -> bool {
    &&& plannable(db, q) ==> forall|row: Seq<Match>| rows.contains(row) <==> row_satisfies(db, q, row)
    &&& !plannable(db, q) ==> rows.len() == 0
}

/// Append to `out` the rows of `rows` whose key is not there yet.
fn add_unique_rows(out: &mut Vec<Vec<Match>>, rows: &Vec<Vec<Match>>)
    requires
        distinct_keys(old(out)@),
    ensures
        distinct_keys(final(out)@),
        final(out)@.len() >= old(out)@.len(),
        forall|k: int| 0 <= k < old(out)@.len() ==> #[trigger] final(out)@[k] == old(out)@[k],
        forall|k: int|
            old(out)@.len() <= k < final(out)@.len() ==> has_row(rows@, #[trigger] final(out)@[k]@),
        forall|row: Seq<Match>|
            key_in(final(out)@, row) <==> (key_in(old(out)@, row) || exists|y: int|
                0 <= y < rows@.len() && #[trigger] row_key(rows@[y]@) == row_key(row)),
        views(final(out)@) == dedup_append(views(old(out)@), views(rows@)),
{
    let mut i: usize = 0;
    while i < rows.len()
        invariant
            i <= rows@.len(),
            distinct_keys(out@),
            out@.len() >= old(out)@.len(),
            forall|k: int| 0 <= k < old(out)@.len() ==> #[trigger] out@[k] == old(out)@[k],
            forall|k: int| old(out)@.len() <= k < out@.len() ==> has_row(rows@, #[trigger] out@[k]@),
            forall|row: Seq<Match>|
                key_in(out@, row) <==> (key_in(old(out)@, row) || exists|y: int|
                    0 <= y < i && #[trigger] row_key(rows@[y]@) == row_key(row)),
            views(out@) == dedup_append(views(old(out)@), views(rows@).take(i as int)),
        decreases rows@.len() - i,
    {
        let ghost before = out@;
        proof {
            assert(views(rows@).take(i + 1).drop_last() =~= views(rows@).take(i as int));
            assert(views(rows@).take(i + 1).last() == rows@[i as int]@);
            assert(key_in(before, rows@[i as int]@) == key_seen_in(views(before), rows@[i as int]@)) by {
                if key_in(before, rows@[i as int]@) {
                    let k = choose|k: int| 0 <= k < before.len() && #[trigger] row_key(before[k]@) == row_key(rows@[i as int]@);
                    assert(views(before)[k] == before[k]@);
                }
                if key_seen_in(views(before), rows@[i as int]@) {
                    let k = choose|k: int| 0 <= k < views(before).len() && #[trigger] row_key(views(before)[k]) == row_key(rows@[i as int]@);
                    assert(views(before)[k] == before[k]@);
                }
            }
        }
        if !key_seen(out, &rows[i]) {
            out.push(copy_row(&rows[i]));
            proof {
                assert(out@[before.len() as int]@ == rows@[i as int]@);
                assert(views(out@) =~= views(before).push(rows@[i as int]@));
                assert forall|k1: int, k2: int|
                    0 <= k1 < out@.len() && 0 <= k2 < out@.len() && k1 != k2 implies row_key(
                        #[trigger] out@[k1]@,
                    ) != row_key(#[trigger] out@[k2]@) by {
                    if k1 < before.len() && k2 < before.len() {
                        assert(out@[k1] == before[k1] && out@[k2] == before[k2]);
                    } else if k1 < before.len() {
                        assert(out@[k1] == before[k1]);
                    } else if k2 < before.len() {
                        assert(out@[k2] == before[k2]);
                    }
                }
                assert forall|k: int| old(out)@.len() <= k < out@.len() implies has_row(
                    rows@,
                    #[trigger] out@[k]@,
                ) by {
                    if k < before.len() {
                        assert(out@[k] == before[k]);
                    } else {
                        assert(rows@[i as int]@ == out@[k]@);
                    }
                }
                assert forall|row: Seq<Match>|
                    key_in(out@, row) <==> (key_in(old(out)@, row) || exists|y: int|
                        0 <= y < i + 1 && #[trigger] row_key(rows@[y]@) == row_key(row)) by {
                    if key_in(out@, row) {
                        let k = choose|k: int| 0 <= k < out@.len() && #[trigger] row_key(out@[k]@) == row_key(row);
                        if k < before.len() {
                            assert(out@[k] == before[k]);
                            assert(key_in(before, row));
                        } else {
                            assert(row_key(rows@[i as int]@) == row_key(row));
                        }
                    }
                    if key_in(before, row) {
                        let k = choose|k: int| 0 <= k < before.len() && #[trigger] row_key(before[k]@) == row_key(row);
                        assert(out@[k] == before[k]);
                    }
                    if exists|y: int| 0 <= y < i + 1 && #[trigger] row_key(rows@[y]@) == row_key(row) {
                        let y = choose|y: int| 0 <= y < i + 1 && #[trigger] row_key(rows@[y]@) == row_key(row);
                        if y == i {
                            assert(row_key(out@[before.len() as int]@) == row_key(row));
                        } else {
                            assert(key_in(before, row));
                        }
                    }
                }
            }
        } else {
            proof {
                let k0 = choose|k: int| 0 <= k < out@.len() && #[trigger] row_key(out@[k]@) == row_key(rows@[i as int]@);
                assert forall|row: Seq<Match>|
                    key_in(out@, row) <==> (key_in(old(out)@, row) || exists|y: int|
                        0 <= y < i + 1 && #[trigger] row_key(rows@[y]@) == row_key(row)) by {
                    if exists|y: int| 0 <= y < i + 1 && #[trigger] row_key(rows@[y]@) == row_key(row) {
                        let y = choose|y: int| 0 <= y < i + 1 && #[trigger] row_key(rows@[y]@) == row_key(row);
                        if y == i {
                            assert(row_key(out@[k0]@) == row_key(row));
                        }
                    }
                }
            }
        }
        i += 1;
    }
    assert(views(rows@).take(i as int) =~= views(rows@));
}

/// A query planned for execution: the deduplicated rows of all plannable
/// alternatives, and how many of them have been handed out.
pub struct ExecutionPlan {
    results: Vec<Vec<Match>>,
    current: usize,
}

impl ExecutionPlan {
    /// All rows, in the order they are handed out.
    pub closed spec fn rows(&self) -> Seq<Vec<Match>> {
        self.results@
    }

    /// How many rows have been handed out.
    pub closed spec fn position(&self) -> nat {
        self.current as nat
    }

    /// Plan every alternative of `query` and evaluate those that can be
    /// planned, dropping rows whose key an earlier row has.
    pub fn from_disjunction(query: &Disjunction, db: &GraphDB, config: Config) -> (r: Result<
        ExecutionPlan,
        Error,
    >)
        requires
            db.wf(),
        ensures
            r is Err <==> forall|a: int|
                0 <= a < query.alternatives@.len() ==> !plannable(db, #[trigger] &query.alternatives@[a]),
            r matches Ok(p) ==> is_query_result(db, query.alternatives@, p.rows()) && p.position() == 0,
            r matches Ok(p) ==> exists|outs: Seq<Seq<Seq<Match>>>|
                #[trigger] dedup_concat(outs) == views(p.rows()) && outs.len() == query.alternatives@.len()
                    && forall|x: int| 0 <= x < outs.len() ==> alt_rows(db, &query.alternatives@[x], #[trigger] outs[x]),
            r matches Err(Error::ImpossibleSearch(e)) ==> (e@.len() == query.alternatives@.len()
                && forall|a: int|
                0 <= a < e@.len() ==> #[trigger] e@[a] == plan_error(db, &query.alternatives@[a])),
    {
        let alts = &query.alternatives;
        let mut out: Vec<Vec<Match>> = Vec::new();
        let mut errors: Vec<PlanError> = Vec::new();
        let mut any: bool = false;
        let mut a: usize = 0;
        let ghost mut outs: Seq<Seq<Seq<Match>>> = Seq::empty();
        assert(views(out@) =~= dedup_concat(outs));
        while a < alts.len()
            invariant
                db.wf(),
                outs.len() == a,
                views(out@) == dedup_concat(outs),
                forall|x: int| 0 <= x < a ==> alt_rows(db, &alts@[x], #[trigger] outs[x]),
                a <= alts@.len(),
                alts == &query.alternatives,
                any <==> exists|x: int| 0 <= x < a && plannable(db, #[trigger] &alts@[x]),
                errors@.len() <= a,
                !any ==> errors@.len() == a,
                !any ==> forall|x: int| 0 <= x < a ==> #[trigger] errors@[x] == plan_error(db, &alts@[x]),
                forall|k: int| 0 <= k < out@.len() ==> matches_some(db, alts@, a as int, #[trigger] out@[k]@),
                forall|x: int, row: Seq<Match>|
                    0 <= x < a && plannable(db, &alts@[x]) && #[trigger] row_satisfies(db, &alts@[x], row)
                        ==> key_in(out@, row),
                distinct_keys(out@),
            decreases alts@.len() - a,
        {
            let q = &alts[a];
            let ghost before = out@;
            match plan_conjunction(db, q, config.use_index_join) {
                Err(e) => {
                    proof {
                        let o2 = outs.push(Seq::empty());
                        assert(o2.drop_last() =~= outs);
                        assert forall|x: int| 0 <= x < a + 1 implies alt_rows(db, &alts@[x], #[trigger] o2[x]) by {
                            if x < a {
                                assert(o2[x] == outs[x]);
                            }
                        }
                        outs = o2;
                    }
                    let ghost before_errors = errors@;
                    errors.push(e);
                    proof {
                        if !any {
                            assert forall|x: int| 0 <= x < a + 1 implies #[trigger] errors@[x] == plan_error(db, &alts@[x]) by {
                                if x < a {
                                    assert(errors@[x] == before_errors[x]);
                                }
                            }
                        }
                    }
                    proof {
                        assert forall|k: int| 0 <= k < out@.len() implies matches_some(
                            db,
                            alts@,
                            a + 1,
                            #[trigger] out@[k]@,
                        ) by {
                            assert(matches_some(db, alts@, a as int, out@[k]@));
                        }
                    }
                },
                Ok(p) => {
                    any = true;
                    let rows = execute_conjunction(db, q, &p);
                    add_unique_rows(&mut out, &rows);
                    proof {
                        let o2 = outs.push(views(rows@));
                        assert(o2.drop_last() =~= outs);
                        assert forall|row: Seq<Match>| views(rows@).contains(row) <==> row_satisfies(db, q, row) by {
                            if views(rows@).contains(row) {
                                let k = choose|k: int| 0 <= k < views(rows@).len() && views(rows@)[k] == row;
                                assert(rows@[k]@ == row);
                            }
                            if row_satisfies(db, q, row) {
                                let k = choose|k: int| 0 <= k < rows@.len() && #[trigger] rows@[k]@ == row;
                                assert(views(rows@)[k] == row);
                            }
                        }
                        assert forall|x: int| 0 <= x < a + 1 implies alt_rows(db, &alts@[x], #[trigger] o2[x]) by {
                            if x < a {
                                assert(o2[x] == outs[x]);
                            }
                        }
                        outs = o2;
                    }
                    proof {
                        assert forall|k: int| 0 <= k < out@.len() implies matches_some(
                            db,
                            alts@,
                            a + 1,
                            #[trigger] out@[k]@,
                        ) by {
                            if k < before.len() {
                                assert(out@[k] == before[k]);
                                assert(matches_some(db, alts@, a as int, before[k]@));
                            } else {
                                assert(has_row(rows@, out@[k]@));
                                assert(row_satisfies(db, &alts@[a as int], out@[k]@));
                            }
                        }
                        assert forall|x: int, row: Seq<Match>|
                            0 <= x < a + 1 && plannable(db, &alts@[x]) && #[trigger] row_satisfies(
                                db,
                                &alts@[x],
                                row,
                            ) implies key_in(out@, row) by {
                            if x < a {
                                assert(key_in(before, row));
                            } else {
                                assert(has_row(rows@, row));
                                let y = choose|y: int| 0 <= y < rows@.len() && #[trigger] rows@[y]@ == row;
                                assert(row_key(rows@[y]@) == row_key(row));
                            }
                        }
                    }
                },
            }
            a += 1;
        }
        if !any {
            Err(Error::ImpossibleSearch(errors))
        } else {
            Ok(ExecutionPlan { results: out, current: 0 })
        }
    }

    /// The next row, if any is left.
    pub fn next(&mut self) -> (r: Option<Vec<Match>>)
        ensures
            final(self).rows() == old(self).rows(),
            old(self).position() < old(self).rows().len() ==> (r matches Some(row) && row@ == old(
                self,
            ).rows()[old(self).position() as int]@ && final(self).position() == old(self).position() + 1),
            old(self).position() >= old(self).rows().len() ==> (r is None && final(self).position()
                == old(self).position()),
    {
        if self.current < self.results.len() {
            let row = copy_row(&self.results[self.current]);
            self.current += 1;
            Some(row)
        } else {
            None
        }
    }

    /// The rows from position `offset` on, at most `limit` of them.
    pub fn page(&self, offset: usize, limit: usize) -> (r: Vec<Vec<Match>>)
        ensures
            r@.map_values(|v: Vec<Match>| v@) == page_of(self.rows(), offset as int, limit as int),
    {
        let n = self.results.len();
        let lo = if offset < n { offset } else { n };
        let hi = if limit < n - lo { lo + limit } else { n };
        let mut r: Vec<Vec<Match>> = Vec::new();
        let mut i: usize = lo;
        while i < hi
            invariant
                lo <= i <= hi <= n,
                n == self.results@.len(),
                r@.map_values(|v: Vec<Match>| v@) == self.results@.subrange(lo as int, i as int).map_values(
                    |v: Vec<Match>| v@,
                ),
            decreases hi - i,
        {
            let ghost before = r@;
            r.push(copy_row(&self.results[i]));
            assert(r@.map_values(|v: Vec<Match>| v@) =~= before.map_values(|v: Vec<Match>| v@).push(
                self.results@[i as int]@,
            ));
            i += 1;
            assert(r@.map_values(|v: Vec<Match>| v@) =~= self.results@.subrange(lo as int, i as int).map_values(
                |v: Vec<Match>| v@,
            ));
        }
        r
    }

    /// How many rows are left to hand out.
    pub fn count(&self) -> (r: usize)
        ensures
            r == if self.position() < self.rows().len() {
                self.rows().len() - self.position()
            } else {
                0
            },
    {
        if self.current < self.results.len() {
            self.results.len() - self.current
        } else {
            0
        }
    }
}

} // verus!
