//! Evaluation of node searches and operators against a graph database.

use vstd::prelude::*;
use crate::annostorage::{anno_matches, search, AnnoEntry};
use crate::graphdb::GraphDB;
use crate::graphstorage::connected_between;
use crate::query::{NodeSearchSpec, OperatorSpec, ANNIS_NS, NODE_TYPE, TOK};
use crate::stringpool::StringPool;
use crate::graphstorage::targets_of;
use crate::regexmatch::{anchor, anchored, full_match, matches_anchored};
use crate::types::{ComponentType, Match, NodeID, StringID};

verus! {

/// The node of `m` carries the annotation of `m`, whose strings are those
/// that the key of `s` asks for.
pub open spec fn key_matches(db: &GraphDB, s: &NodeSearchSpec, m: Match) -> bool {
    let k = s.key();
    &&& db.node_annos@.contains((m.node, m.anno))
    &&& db.strings@[m.anno.key.name as int] == k.1
    &&& (k.0 matches Some(ns) ==> db.strings@[m.anno.key.ns as int] == ns)
    &&& (k.2 matches Some(v) ==> db.strings@[m.anno.val as int] == v)
}

/// Node `n` covers no other node: it has no outgoing edge in any loaded
/// Coverage component.
pub open spec fn is_leaf(db: &GraphDB, n: NodeID) -> bool {
    forall|i: int|
        0 <= i < db.components@.len() && (#[trigger] db.components@[i]).component.ctype
            == ComponentType::Coverage && db.components@[i].storage is Some ==> targets_of(
            db.components@[i].storage->Some_0.edges(),
            n,
        ).len() == 0
}

/// `m` is a result of search `s` on `db`: the node carries the annotation of
/// `m`, whose strings are those that `s` asks for, whose whole value matches
/// the pattern of `s` if it has one, and the node covers no other node when
/// `s` asks for leaves only.
pub open spec fn node_matches(db: &GraphDB, s: &NodeSearchSpec, m: Match) -> bool {
    &&& key_matches(db, s, m)
    &&& (s.pattern() matches Some(p) ==> full_match(p, db.strings@[m.anno.val as int]))
    &&& (s.leafs_only() ==> is_leaf(db, m.node))
}

/// Whether node `n` covers no other node.
pub fn node_is_leaf(db: &GraphDB, n: NodeID) -> (r: bool)
    ensures
        r == is_leaf(db, n),
{
    let mut i: usize = 0;
    while i < db.components.len()
        invariant
            i <= db.components@.len(),
            forall|k: int|
                0 <= k < i && (#[trigger] db.components@[k]).component.ctype == ComponentType::Coverage
                    && db.components@[k].storage is Some ==> targets_of(
                    db.components@[k].storage->Some_0.edges(),
                    n,
                ).len() == 0,
        decreases db.components@.len() - i,
    {
        let e = &db.components[i];
        if e.component.ctype == ComponentType::Coverage {
            match &e.storage {
                Some(gs) => {
                    if gs.get_outgoing_edges(n).len() > 0 {
                        return false;
                    }
                },
                None => {},
            }
        }
        i += 1;
    }
    true
}

/// All results of node search `s` on `db`.
pub fn node_search(db: &GraphDB, s: &NodeSearchSpec) -> (r: Vec<Match>)
    requires
        db.wf(),
    ensures
        forall|m: Match| r@.contains(m) <==> node_matches(db, s, m),
{
    let base = key_search(db, s);
    let pattern: Option<String> = match s {
        NodeSearchSpec::RegexValue { pattern, .. } => Some(anchor(pattern.as_str())),
        NodeSearchSpec::RegexTokenValue { pattern, .. } => Some(anchor(pattern.as_str())),
        _ => None,
    };
    let leafs_only = match s {
        NodeSearchSpec::ExactTokenValue { leafs_only, .. } => *leafs_only,
        NodeSearchSpec::RegexTokenValue { leafs_only, .. } => *leafs_only,
        _ => false,
    };
    let mut r: Vec<Match> = Vec::new();
    let mut i: usize = 0;
    while i < base.len()
        invariant
            db.wf(),
            i <= base@.len(),
            forall|m: Match| base@.contains(m) <==> key_matches(db, s, m),
            pattern is Some <==> s.pattern() is Some,
            pattern matches Some(a) ==> a@ == anchored(s.pattern()->Some_0),
            leafs_only == s.leafs_only(),
            forall|m: Match| r@.contains(m) <==> (base@.take(i as int).contains(m) && node_matches(db, s, m)),
        decreases base@.len() - i,
    {
        let m = base[i];
        assert(base@.contains(m));
        let ghost e = db.node_annos@;
        proof {
            let k = choose|k: int| 0 <= k < e.len() && e[k] == (m.node, m.anno);
            assert(e[k].1 == m.anno);
        }
        let value_ok = match &pattern {
            Some(a) => {
                let v = db.strings.str(m.anno.val).unwrap();
                matches_anchored(a, v.as_str())
            },
            None => true,
        };
        let keep = value_ok && (!leafs_only || node_is_leaf(db, m.node));
        let ghost before = r@;
        if keep {
            r.push(m);
        }
        assert(base@.take(i + 1) =~= base@.take(i as int).push(m));
        assert forall|x: Match| r@.contains(x) <==> (base@.take(i + 1).contains(x) && node_matches(db, s, x)) by {
            vstd::seq_lib::lemma_seq_contains_after_push(base@.take(i as int), m, x);
            if keep {
                vstd::seq_lib::lemma_seq_contains_after_push(before, m, x);
            }
        }
        i += 1;
    }
    assert(base@.take(i as int) =~= base@);
    r
}

/// The operator `op` holds from `l` to `r`: a walk in its component leads from
/// the node of `l` to the node of `r` within its distance bounds, and the two
/// differ unless the operator is reflexive.
pub open spec fn op_holds(db: &GraphDB, op: &OperatorSpec, l: Match, r: Match) -> bool {
    &&& connected_between(db.edges_of(op.component()), l.node, r.node, op.min(), op.max())
    &&& (op.reflexive() || l.node != r.node || l.anno.key != r.anno.key)
}

/// What an exact search over `e` finds.
proof fn lemma_search_contains(
    e: Seq<AnnoEntry>,
    ns: Option<StringID>,
    name: StringID,
    val: Option<StringID>,
    m: Match,
)
    ensures
        search(e, ns, name, val).contains(m) <==> (e.contains((m.node, m.anno)) && anno_matches(
            m.anno,
            ns,
            name,
            val,
        )),
    decreases e.len(),
{
    if e.len() > 0 {
        lemma_search_contains(e.drop_last(), ns, name, val, m);
        let rest = search(e.drop_last(), ns, name, val);
        if e.drop_last().contains((m.node, m.anno)) {
            let k = choose|k: int| 0 <= k < e.drop_last().len() && e.drop_last()[k] == (m.node, m.anno);
            assert(e[k] == (m.node, m.anno));
        }
        if e.contains((m.node, m.anno)) {
            let k = choose|k: int| 0 <= k < e.len() && e[k] == (m.node, m.anno);
            if k < e.len() - 1 {
                assert(e.drop_last()[k] == (m.node, m.anno));
            }
        }
        if anno_matches(e.last().1, ns, name, val) {
            let s = rest.push(Match { node: e.last().0, anno: e.last().1 });
            if rest.contains(m) {
                let k = choose|k: int| 0 <= k < rest.len() && rest[k] == m;
                assert(s[k] == m);
            }
            if s.contains(m) {
                let k = choose|k: int| 0 <= k < s.len() && s[k] == m;
                if k < rest.len() {
                    assert(rest[k] == m);
                }
            }
            if m == (Match { node: e.last().0, anno: e.last().1 }) {
                assert(s[rest.len() as int] == m);
            }
        }
    }
}

/// The identifier of an optional string; `Err` when the string is not interned.
fn resolve_opt(pool: &StringPool, s: &Option<String>) -> (r: Result<Option<StringID>, ()>)
    requires
        pool.wf(),
    ensures
        r is Err <==> (s matches Some(x) && !crate::stringpool::holds(pool@, x@)),
        r matches Ok(o) ==> (o is Some <==> s is Some),
        r matches Ok(Some(id)) ==> (id < pool@.len() && (s matches Some(x) && pool@[id as int] == x@)),
{
    match s {
        Some(x) => match pool.find_id(x.as_str()) {
            Some(id) => Ok(Some(id)),
            None => Err(()),
        },
        None => Ok(None),
    }
}

/// The strings that a node search asks for.
fn search_strings(s: &NodeSearchSpec) -> (r: (Option<String>, String, Option<String>))
    ensures
        (crate::query::opt_view(r.0), r.1@, crate::query::opt_view(r.2)) == s.key(),
{
    match s {
        NodeSearchSpec::ExactValue { ns, name, val } => (
            match ns {
                Some(x) => Some(x.clone()),
                None => None,
            },
            name.clone(),
            match val {
                Some(x) => Some(x.clone()),
                None => None,
            },
        ),
        NodeSearchSpec::RegexValue { ns, name, .. } => (
            match ns {
                Some(x) => Some(x.clone()),
                None => None,
            },
            name.clone(),
            None,
        ),
        NodeSearchSpec::RegexTokenValue { .. } => (Some(ANNIS_NS.to_string()), TOK.to_string(), None),
        NodeSearchSpec::ExactTokenValue { val, .. } => (
            Some(ANNIS_NS.to_string()),
            TOK.to_string(),
            Some(val.clone()),
        ),
        NodeSearchSpec::AnyToken => (Some(ANNIS_NS.to_string()), TOK.to_string(), None),
        NodeSearchSpec::AnyNode => (Some(ANNIS_NS.to_string()), NODE_TYPE.to_string(), None),
    }
}

/// The matches of the annotation that the key of `s` names.
fn key_search(db: &GraphDB, s: &NodeSearchSpec) -> (r: Vec<Match>)
    requires
        db.wf(),
    ensures
        forall|m: Match| r@.contains(m) <==> key_matches(db, s, m),
{
    let (ns, name, val) = search_strings(s);
    let ghost p = db.strings@;
    let ghost e = db.node_annos@;
    let ns_id = resolve_opt(&db.strings, &ns);
    let val_id = resolve_opt(&db.strings, &val);
    let name_id = db.strings.find_id(name.as_str());
    match (ns_id, name_id, val_id) {
        (Ok(ns_id), Some(name_id), Ok(val_id)) => {
            let r = db.node_annos.exact_anno_search(ns_id, name_id, val_id);
            assert forall|m: Match| r@.contains(m) <==> key_matches(db, s, m) by {
                lemma_search_contains(e, ns_id, name_id, val_id, m);
                if e.contains((m.node, m.anno)) {
                    let k = choose|k: int| 0 <= k < e.len() && e[k] == (m.node, m.anno);
                    assert(e[k].1 == m.anno);
                    assert(m.anno.key.name < p.len());
                    if p[m.anno.key.name as int] == p[name_id as int] {
                        assert(m.anno.key.name == name_id);
                    }
                    if let Some(x) = ns_id {
                        if p[m.anno.key.ns as int] == p[x as int] {
                            assert(m.anno.key.ns == x);
                        }
                    }
                    if let Some(x) = val_id {
                        if p[m.anno.val as int] == p[x as int] {
                            assert(m.anno.val == x);
                        }
                    }
                }
            }
            r
        },
        _ => {
            assert forall|m: Match| !key_matches(db, s, m) by {
                if key_matches(db, s, m) {
                    let k = choose|k: int| 0 <= k < e.len() && e[k] == (m.node, m.anno);
                    assert(e[k].1 == m.anno);
                    assert(p[m.anno.key.name as int] == name@);
                }
            }
            Vec::new()
        },
    }
}

/// Whether operator `op` holds from `l` to `r`.
pub fn op_check(db: &GraphDB, op: &OperatorSpec, l: Match, r: Match) -> (res: bool)
    requires
        db.wf(),
        db.loaded().contains(op.component()),
    ensures
        res == op_holds(db, op, l, r),
{
    let c = op.necessary_component();
    let (min, max) = op.distance_bounds();
    match db.get_graphstorage(&c) {
        Some(gs) => {
            if !op.is_reflexive() && l.node == r.node && l.anno.key == r.anno.key {
                false
            } else {
                gs.is_connected(l.node, r.node, min, max)
            }
        },
        None => false,
    }
}

/// The targets that operator `op` can reach from `l`, each once.
pub fn retrieve_nodes(db: &GraphDB, op: &OperatorSpec, l: Match) -> (res: Vec<u64>)
    requires
        db.wf(),
        db.loaded().contains(op.component()),
    ensures
        forall|n: u64|
            res@.contains(n) <==> connected_between(
                db.edges_of(op.component()),
                l.node,
                n,
                op.min(),
                op.max(),
            ),
{
    let c = op.necessary_component();
    let (min, max) = op.distance_bounds();
    match db.get_graphstorage(&c) {
        Some(gs) => gs.find_connected(l.node, min, max),
        None => Vec::new(),
    }
}

} // verus!
