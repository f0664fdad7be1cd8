//! Evaluation of planned conjunctions: rows are extended one join step at a
//! time and finally put back into query order.

use vstd::prelude::*;
use crate::graphdb::GraphDB;
use crate::plan::ConjunctionPlan;
use crate::query::Conjunction;
use crate::search::{node_matches, op_check, op_holds, retrieve_nodes};
use crate::types::{contains_node, Match};

verus! {

/// `row` is a match of conjunction `q`: one match per node, column `i` for
/// the node at position `i`, with every operator holding.
pub open spec fn row_satisfies(db: &GraphDB, q: &Conjunction, row: Seq<Match>) -> bool {
    &&& row.len() == q.nodes@.len()
    &&& forall|i: int| 0 <= i < row.len() ==> #[trigger] node_matches(db, &q.nodes@[i], row[i])
    &&& forall|j: int|
        0 <= j < q.operators@.len() ==> #[trigger] op_holds(
            db,
            &q.operators@[j].op,
            row[q.operators@[j].lhs as int],
            row[q.operators@[j].rhs as int],
        )
}

/// Some row of `rows` is `row`.
pub open spec fn has_row(rows: Seq<Vec<Match>>, row: Seq<Match>) -> bool {
    exists|k: int| 0 <= k < rows.len() && #[trigger] rows[k]@ == row
}

/// `pr` binds the first `t` steps of plan `p`: each to a result of its
/// search, with every operator between bound steps holding.
pub open spec fn partial_ok(
    db: &GraphDB,
    q: &Conjunction,
    p: &ConjunctionPlan,
    t: int,
    pr: Seq<Match>,
) -> bool {
    &&& pr.len() == t
    &&& forall|s: int|
        0 <= s < t ==> #[trigger] node_matches(db, &q.nodes@[p.order@[s] as int], pr[s])
    &&& forall|j: int|
        0 <= j < q.operators@.len() && p.pos@[q.operators@[j].lhs as int] < t
            && p.pos@[q.operators@[j].rhs as int] < t ==> #[trigger] op_holds(
            db,
            &q.operators@[j].op,
            pr[p.pos@[q.operators@[j].lhs as int] as int],
            pr[p.pos@[q.operators@[j].rhs as int] as int],
        )
}

/// A copy of `row`.
pub fn copy_row(row: &Vec<Match>) -> (r: Vec<Match>)
    ensures
        r@ == row@,
{
    let mut r: Vec<Match> = Vec::new();
    let mut i: usize = 0;
    while i < row.len()
        invariant
            i <= row@.len(),
            r@ == row@.take(i as int),
        decreases row@.len() - i,
    {
        r.push(row[i]);
        i += 1;
        assert(r@ =~= row@.take(i as int));
    }
    assert(row@.take(i as int) =~= row@);
    r
}

/// Whether every operator between the first `row.len()` steps holds on `row`.
fn ops_hold(db: &GraphDB, q: &Conjunction, p: &ConjunctionPlan, row: &Vec<Match>) -> (r: bool)
    requires
        p.wf(db, q),
        row@.len() <= p.order@.len(),
    ensures
        r == forall|j: int|
            0 <= j < q.operators@.len() && p.pos@[q.operators@[j].lhs as int] < row@.len()
                && p.pos@[q.operators@[j].rhs as int] < row@.len() ==> #[trigger] op_holds(
                db,
                &q.operators@[j].op,
                row@[p.pos@[q.operators@[j].lhs as int] as int],
                row@[p.pos@[q.operators@[j].rhs as int] as int],
            ),
{
    let mut j: usize = 0;
    while j < q.operators.len()
        invariant
            p.wf(db, q),
            j <= q.operators@.len(),
            forall|k: int|
                0 <= k < j && p.pos@[q.operators@[k].lhs as int] < row@.len()
                    && p.pos@[q.operators@[k].rhs as int] < row@.len() ==> #[trigger] op_holds(
                    db,
                    &q.operators@[k].op,
                    row@[p.pos@[q.operators@[k].lhs as int] as int],
                    row@[p.pos@[q.operators@[k].rhs as int] as int],
                ),
        decreases q.operators@.len() - j,
    {
        let o = &q.operators[j];
        assert(o.lhs < q.nodes@.len() && o.rhs < q.nodes@.len()) by {
            assert(q.operators@[j as int].lhs < q.nodes@.len());
        }
        let pl = p.pos[o.lhs];
        let pr = p.pos[o.rhs];
        if pl < row.len() && pr < row.len() {
            assert(db.loaded().contains(q.operators@[j as int].op.component()));
            if !op_check(db, &o.op, row[pl], row[pr]) {
                return false;
            }
        }
        j += 1;
    }
    true
}

/// Adding a row adds exactly that row.
proof fn lemma_has_row_push(rows: Seq<Vec<Match>>, x: Vec<Match>, pr: Seq<Match>)
    ensures
        has_row(rows.push(x), pr) <==> (has_row(rows, pr) || x@ == pr),
{
    let r2 = rows.push(x);
    if has_row(rows, pr) {
        let k = choose|k: int| 0 <= k < rows.len() && #[trigger] rows[k]@ == pr;
        assert(r2[k]@ == pr);
    }
    if x@ == pr {
        assert(r2[rows.len() as int]@ == pr);
    }
    if has_row(r2, pr) {
        let k = choose|k: int| 0 <= k < r2.len() && #[trigger] r2[k]@ == pr;
        if k < rows.len() {
            assert(rows[k]@ == pr);
        }
    }
}

/// Extend every row of `rows`, which binds the first `t` steps, by the
/// results for step `t` that keep all operators between bound steps.
fn extend(db: &GraphDB, q: &Conjunction, p: &ConjunctionPlan, rows: &Vec<Vec<Match>>, t: usize) -> (r:
    Vec<Vec<Match>>)
    requires
        p.wf(db, q),
        t < p.order@.len(),
        forall|k: int| 0 <= k < rows@.len() ==> partial_ok(db, q, p, t as int, #[trigger] rows@[k]@),
    ensures
        forall|pr: Seq<Match>|
            has_row(r@, pr) <==> (pr.len() == t + 1 && has_row(rows@, pr.drop_last())
                && partial_ok(db, q, p, t + 1, pr)),
{
    let v = p.order[t];
    assert(v < q.nodes@.len() && p.pos@[v as int] == t);
    let cands = &p.candidates[v];
    assert(forall|m: Match| cands@.contains(m) <==> node_matches(db, &q.nodes@[v as int], m));
    let mut out: Vec<Vec<Match>> = Vec::new();
    let mut a: usize = 0;
    while a < rows.len()
        invariant
            p.wf(db, q),
            t < p.order@.len(),
            v == p.order@[t as int],
            v < q.nodes@.len(),
            p.pos@[v as int] == t,
            cands == &p.candidates@[v as int],
            forall|m: Match| cands@.contains(m) <==> node_matches(db, &q.nodes@[v as int], m),
            a <= rows@.len(),
            forall|k: int| 0 <= k < rows@.len() ==> partial_ok(db, q, p, t as int, #[trigger] rows@[k]@),
            forall|pr: Seq<Match>|
                has_row(out@, pr) <==> (pr.len() == t + 1 && has_row(rows@.take(a as int), pr.drop_last())
                    && partial_ok(db, q, p, t + 1, pr)),
        decreases rows@.len() - a,
    {
        let row = &rows[a];
        assert(partial_ok(db, q, p, t as int, rows@[a as int]@));
        let reach: Option<Vec<u64>> = match p.index_op[t] {
            Some(j) => {
                let o = &q.operators[j];
                let lp = p.pos[o.lhs];
                assert(db.loaded().contains(q.operators@[j as int].op.component()));
                Some(retrieve_nodes(db, &o.op, row[lp]))
            },
            None => None,
        };
        let mut b: usize = 0;
        while b < cands.len()
            invariant
                p.wf(db, q),
                t < p.order@.len(),
                v == p.order@[t as int],
                v < q.nodes@.len(),
                p.pos@[v as int] == t,
                forall|m: Match| cands@.contains(m) <==> node_matches(db, &q.nodes@[v as int], m),
                a < rows@.len(),
                row == &rows@[a as int],
                partial_ok(db, q, p, t as int, row@),
                b <= cands@.len(),
                reach matches Some(ns) ==> (p.index_op@[t as int] matches Some(j) && forall|n: u64|
                    ns@.contains(n) <==> crate::graphstorage::connected_between(
                        db.edges_of(q.operators@[j as int].op.component()),
                        row@[p.pos@[q.operators@[j as int].lhs as int] as int].node,
                        n,
                        q.operators@[j as int].op.min(),
                        q.operators@[j as int].op.max(),
                    )),
                reach is None ==> p.index_op@[t as int] is None,
                forall|pr: Seq<Match>|
                    has_row(out@, pr) <==> (pr.len() == t + 1 && partial_ok(db, q, p, t + 1, pr) && (
                    has_row(rows@.take(a as int), pr.drop_last()) || (row@ == pr.drop_last()
                        && cands@.take(b as int).contains(pr.last())))),
            decreases cands@.len() - b,
        {
            let m = cands[b];
            let pass_index = match &reach {
                Some(ns) => contains_node(ns, m.node),
                None => true,
            };
            let ghost cand_row = row@.push(m);
            let ghost before = out@;
            assert(cand_row.drop_last() =~= row@);
            assert(cands@.take(b + 1) =~= cands@.take(b as int).push(m));
            let mut nr = copy_row(row);
            nr.push(m);
            let keep = pass_index && ops_hold(db, q, p, &nr);
            proof {
                assert(nr@ == cand_row);
                if keep {
                    assert(cands@.contains(m)) by {
                        assert(cands@[b as int] == m);
                    }
                    assert forall|s: int| 0 <= s < t + 1 implies #[trigger] node_matches(
                        db,
                        &q.nodes@[p.order@[s] as int],
                        nr@[s],
                    ) by {
                        if s < t {
                            assert(nr@[s] == row@[s]);
                        }
                    }
                    assert(partial_ok(db, q, p, t + 1, cand_row));
                } else if !pass_index {
                    let j = p.index_op@[t as int]->Some_0;
                    assert(q.operators@[j as int].rhs == v);
                    assert(!op_holds(
                        db,
                        &q.operators@[j as int].op,
                        cand_row[p.pos@[q.operators@[j as int].lhs as int] as int],
                        cand_row[p.pos@[q.operators@[j as int].rhs as int] as int],
                    ));
                    assert(!partial_ok(db, q, p, t + 1, cand_row));
                } else {
                    assert(!partial_ok(db, q, p, t + 1, cand_row));
                }
            }
            if keep {
                out.push(nr);
            }
            proof {
                assert forall|pr: Seq<Match>|
                    has_row(out@, pr) <==> (pr.len() == t + 1 && partial_ok(db, q, p, t + 1, pr) && (
                    has_row(rows@.take(a as int), pr.drop_last()) || (row@ == pr.drop_last()
                        && cands@.take(b + 1).contains(pr.last())))) by {
                    if keep {
                        assert(out@ == before.push(out@.last()));
                        lemma_has_row_push(before, out@.last(), pr);
                    }
                    vstd::seq_lib::lemma_seq_contains_after_push(cands@.take(b as int), m, pr.last());
                    if pr.len() == t + 1 && row@ == pr.drop_last() && pr.last() == m {
                        assert(pr =~= cand_row);
                    }
                }
            }
            let ghost b0 = b;
            b += 1;
            assert(forall|pr: Seq<Match>|
                #![trigger has_row(out@, pr)]
                has_row(out@, pr) <==> (pr.len() == t + 1 && partial_ok(db, q, p, t + 1, pr) && (
                has_row(rows@.take(a as int), pr.drop_last()) || (row@ == pr.drop_last()
                    && cands@.take(b0 + 1).contains(pr.last())))));
            assert(cands@.take(b0 + 1) == cands@.take(b as int));
        }
        proof {
            assert(cands@.take(b as int) =~= cands@);
            assert(rows@.take(a + 1) =~= rows@.take(a as int).push(rows@[a as int]));
            assert forall|pr: Seq<Match>|
                has_row(out@, pr) <==> (pr.len() == t + 1 && has_row(rows@.take(a + 1), pr.drop_last())
                    && partial_ok(db, q, p, t + 1, pr)) by {
                lemma_has_row_push(rows@.take(a as int), rows@[a as int], pr.drop_last());
                if pr.len() == t + 1 && partial_ok(db, q, p, t + 1, pr) {
                    assert(node_matches(db, &q.nodes@[p.order@[t as int] as int], pr[t as int]));
                    assert(pr.last() == pr[t as int]);
                }
            }
        }
        a += 1;
    }
    assert(rows@.take(a as int) =~= rows@);
    out
}

/// Row `pr`, in join order, put back into query order.
pub open spec fn reorder(p: &ConjunctionPlan, n: int, pr: Seq<Match>) -> Seq<Match> {
    Seq::new(n as nat, |v: int| pr[p.pos@[v] as int])
}

/// Row `row`, in query order, put into join order.
pub open spec fn unorder(p: &ConjunctionPlan, row: Seq<Match>) -> Seq<Match> {
    Seq::new(p.order@.len(), |s: int| row[p.order@[s] as int])
}

/// Binding one step more binds the steps before it.
proof fn lemma_partial_prefix(db: &GraphDB, q: &Conjunction, p: &ConjunctionPlan, t: int, pr: Seq<Match>)
    requires
        p.wf(db, q),
        0 <= t,
        partial_ok(db, q, p, t + 1, pr),
    ensures
        partial_ok(db, q, p, t, pr.drop_last()),
{
    let d = pr.drop_last();
    assert forall|s: int| 0 <= s < t implies #[trigger] node_matches(db, &q.nodes@[p.order@[s] as int], d[s]) by {
        assert(node_matches(db, &q.nodes@[p.order@[s] as int], pr[s]));
    }
    assert forall|j: int|
        0 <= j < q.operators@.len() && p.pos@[q.operators@[j].lhs as int] < t
            && p.pos@[q.operators@[j].rhs as int] < t implies #[trigger] op_holds(
            db,
            &q.operators@[j].op,
            d[p.pos@[q.operators@[j].lhs as int] as int],
            d[p.pos@[q.operators@[j].rhs as int] as int],
        ) by {
        assert(op_holds(
            db,
            &q.operators@[j].op,
            pr[p.pos@[q.operators@[j].lhs as int] as int],
            pr[p.pos@[q.operators@[j].rhs as int] as int],
        ));
    }
}

/// A complete row in join order is a match of the conjunction in query order,
/// and every match of the conjunction arises so.
proof fn lemma_reorder(db: &GraphDB, q: &Conjunction, p: &ConjunctionPlan, pr: Seq<Match>, row: Seq<Match>)
    requires
        p.wf(db, q),
    ensures
        partial_ok(db, q, p, p.order@.len() as int, pr) ==> row_satisfies(
            db,
            q,
            reorder(p, q.nodes@.len() as int, pr),
        ),
        row_satisfies(db, q, row) ==> partial_ok(db, q, p, p.order@.len() as int, unorder(p, row))
            && reorder(p, q.nodes@.len() as int, unorder(p, row)) == row,
{
    let n = q.nodes@.len() as int;
    let len = p.order@.len() as int;
    if partial_ok(db, q, p, len, pr) {
        let r = reorder(p, n, pr);
        assert forall|i: int| 0 <= i < r.len() implies #[trigger] node_matches(db, &q.nodes@[i], r[i]) by {
            assert(p.pos@[i] < len && p.order@[p.pos@[i] as int] == i);
            assert(node_matches(db, &q.nodes@[p.order@[p.pos@[i] as int] as int], pr[p.pos@[i] as int]));
        }
        assert forall|j: int| 0 <= j < q.operators@.len() implies #[trigger] op_holds(
            db,
            &q.operators@[j].op,
            r[q.operators@[j].lhs as int],
            r[q.operators@[j].rhs as int],
        ) by {
            let o = q.operators@[j];
            assert(o.lhs < n && o.rhs < n);
            assert(p.pos@[o.lhs as int] < len && p.pos@[o.rhs as int] < len);
        }
    }
    if row_satisfies(db, q, row) {
        let u = unorder(p, row);
        assert forall|s: int| 0 <= s < len implies #[trigger] node_matches(db, &q.nodes@[p.order@[s] as int], u[s]) by {
            assert(p.order@[s] < n);
            assert(node_matches(db, &q.nodes@[p.order@[s] as int], row[p.order@[s] as int]));
        }
        assert forall|j: int|
            0 <= j < q.operators@.len() && p.pos@[q.operators@[j].lhs as int] < len
                && p.pos@[q.operators@[j].rhs as int] < len implies #[trigger] op_holds(
                db,
                &q.operators@[j].op,
                u[p.pos@[q.operators@[j].lhs as int] as int],
                u[p.pos@[q.operators@[j].rhs as int] as int],
            ) by {
            let o = q.operators@[j];
            assert(o.lhs < n && o.rhs < n);
            assert(p.order@[p.pos@[o.lhs as int] as int] == o.lhs);
            assert(p.order@[p.pos@[o.rhs as int] as int] == o.rhs);
            assert(op_holds(db, &o.op, row[o.lhs as int], row[o.rhs as int]));
        }
        assert(reorder(p, n, u) =~= row) by {
            assert forall|v: int| 0 <= v < n implies reorder(p, n, u)[v] == row[v] by {
                assert(p.pos@[v] < len && p.order@[p.pos@[v] as int] == v);
            }
        }
    }
}

/// All matches of conjunction `q` under plan `p`, each row in query order:
/// column `i` holds the match of the node at position `i`.
pub fn execute_conjunction(db: &GraphDB, q: &Conjunction, p: &ConjunctionPlan) -> (r: Vec<
    Vec<Match>,
>)
    requires
        p.wf(db, q),
    ensures
        forall|row: Seq<Match>| has_row(r@, row) <==> row_satisfies(db, q, row),
{
    let mut rows: Vec<Vec<Match>> = Vec::new();
    rows.push(Vec::new());
    proof {
        assert forall|pr: Seq<Match>| has_row(rows@, pr) <==> partial_ok(db, q, p, 0, pr) by {
            if pr.len() == 0 {
                assert(rows@[0]@ =~= pr);
            }
        }
    }
    let mut t: usize = 0;
    while t < p.order.len()
        invariant
            p.wf(db, q),
            t <= p.order@.len(),
            forall|pr: Seq<Match>| has_row(rows@, pr) <==> partial_ok(db, q, p, t as int, pr),
        decreases p.order@.len() - t,
    {
        assert forall|k: int| 0 <= k < rows@.len() implies partial_ok(db, q, p, t as int, #[trigger] rows@[k]@) by {
            assert(has_row(rows@, rows@[k]@));
        }
        let next = extend(db, q, p, &rows, t);
        proof {
            assert forall|pr: Seq<Match>| has_row(next@, pr) <==> partial_ok(db, q, p, t + 1, pr) by {
                if partial_ok(db, q, p, t + 1, pr) {
                    lemma_partial_prefix(db, q, p, t as int, pr);
                }
            }
        }
        rows = next;
        t += 1;
    }
    let n = q.nodes.len();
    let mut out: Vec<Vec<Match>> = Vec::new();
    let mut i: usize = 0;
    while i < rows.len()
        invariant
            p.wf(db, q),
            n == q.nodes@.len(),
            i <= rows@.len(),
            forall|pr: Seq<Match>| has_row(rows@, pr) <==> partial_ok(db, q, p, p.order@.len() as int, pr),
            forall|row: Seq<Match>|
                has_row(out@, row) <==> exists|k: int|
                    0 <= k < i && row == reorder(p, n as int, #[trigger] rows@[k]@),
        decreases rows@.len() - i,
    {
        let pr = &rows[i];
        assert(has_row(rows@, pr@));
        let mut row: Vec<Match> = Vec::new();
        let mut v: usize = 0;
        while v < n
            invariant
                p.wf(db, q),
                n == q.nodes@.len(),
                v <= n,
                pr@.len() == p.order@.len(),
                row@ == reorder(p, n as int, pr@).take(v as int),
            decreases n - v,
        {
            let x = p.pos[v];
            row.push(pr[x]);
            v += 1;
            assert(row@ =~= reorder(p, n as int, pr@).take(v as int));
        }
        assert(row@ =~= reorder(p, n as int, pr@));
        let ghost before = out@;
        out.push(row);
        proof {
            assert forall|rw: Seq<Match>|
                has_row(out@, rw) <==> exists|k: int|
                    0 <= k < i + 1 && rw == reorder(p, n as int, #[trigger] rows@[k]@) by {
                lemma_has_row_push(before, out@.last(), rw);
                assert(out@ == before.push(out@.last()));
                if rw == reorder(p, n as int, rows@[i as int]@) {
                    assert(0 <= i < i + 1);
                }
            }
        }
        i += 1;
    }
    proof {
        assert forall|row: Seq<Match>| has_row(out@, row) <==> row_satisfies(db, q, row) by {
            lemma_reorder(db, q, p, unorder(p, row), row);
            if row_satisfies(db, q, row) {
                let u = unorder(p, row);
                assert(has_row(rows@, u));
                let k = choose|k: int| 0 <= k < rows@.len() && #[trigger] rows@[k]@ == u;
                assert(row == reorder(p, n as int, rows@[k]@));
            }
            if has_row(out@, row) {
                let k = choose|k: int| 0 <= k < rows@.len() && row == reorder(p, n as int, #[trigger] rows@[k]@);
                assert(has_row(rows@, rows@[k]@));
                lemma_reorder(db, q, p, rows@[k]@, row);
            }
        }
    }
    out
}

/// Whichever plan evaluates a conjunction (index join or nested loop, in any
/// join order), the rows found are the same.
pub proof fn lemma_plans_agree(
    db: &GraphDB,
    q: &Conjunction,
    rows1: Seq<Vec<Match>>,
    rows2: Seq<Vec<Match>>,
)
    requires
        forall|row: Seq<Match>| has_row(rows1, row) <==> row_satisfies(db, q, row),
        forall|row: Seq<Match>| has_row(rows2, row) <==> row_satisfies(db, q, row),
    ensures
        forall|row: Seq<Match>| has_row(rows1, row) <==> has_row(rows2, row),
{
}

} // verus!
