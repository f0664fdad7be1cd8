use graphannis::corpusstorage::{str_lt, CorpusStorage, Error as CorpusError};
use graphannis::exec::execute_conjunction;
use graphannis::graphdb::GraphDB;
use graphannis::graphstorage::GraphStorage;
use graphannis::plan::{plan_conjunction, Config, Error, ExecutionPlan, PlanError};
use graphannis::query::{Conjunction, Disjunction, NodeSearchSpec, OperatorSpec, PrecedenceSpec, ANNIS_NS, TOK};
use graphannis::queryparts::{add_precedence_join, is_regex, node_spec, NodeAnnotationDesc, NodeDesc};
use graphannis::search::{node_search, op_check};
use graphannis::stringpool::StringPool;
use graphannis::types::{Component, ComponentType, Edge, Match};

fn ordering() -> Component {
    Component::new(ComponentType::Ordering, ANNIS_NS, "")
}

/// Tokens "a b a c a" in one chain; "b" and "c" are nouns.
fn small_corpus() -> GraphDB {
    let mut db = GraphDB::new();
    let words = ["a", "b", "a", "c", "a"];
    for (i, w) in words.iter().enumerate() {
        let i = i as u64;
        db.add_node_anno(i, ANNIS_NS, "node_type", "node");
        db.add_node_anno(i, ANNIS_NS, TOK, w);
        if *w != "a" {
            db.add_node_anno(i, "tiger", "pos", "NN");
        }
    }
    let mut gs = GraphStorage::new();
    for i in 0..4u64 {
        gs.add_edge(Edge { source: i, target: i + 1 });
    }
    db.install_component(&ordering(), gs);
    db
}

fn prec(min: usize, max: usize) -> OperatorSpec {
    OperatorSpec::Precedence(PrecedenceSpec { segmentation: None, min_dist: min, max_dist: max })
}

fn a_before_noun(min: usize, max: usize) -> Conjunction {
    let mut q = Conjunction::new();
    let a = q.add_node(NodeSearchSpec::new_exact(Some(ANNIS_NS), TOK, Some("a")), Some("1"));
    let n = q.add_node(NodeSearchSpec::new_exact(None, "pos", Some("NN")), Some("2"));
    q.add_operator(prec(min, max), a, n);
    q
}

fn count_of(db: &GraphDB, alts: Vec<Conjunction>) -> usize {
    match ExecutionPlan::from_disjunction(&Disjunction::new(alts), db, Config { use_index_join: true }) {
        Ok(p) => p.count(),
        Err(_) => panic!("query could not be planned"),
    }
}

#[test]
fn intern_round_trip() {
    let mut pool = StringPool::new();
    let a = pool.add("Haus");
    let b = pool.add("Baum");
    let a2 = pool.add("Haus");
    assert_eq!(a, a2);
    assert_ne!(a, b);
    assert_eq!("Haus", pool.str(a).unwrap().as_str());
    assert_eq!("", pool.str(0).unwrap().as_str());
    assert_eq!(3, pool.len());
    assert!(pool.str(17).is_none());
    assert_eq!(Some(b), pool.find_id("Baum"));
    assert_eq!(None, pool.find_id("Maus"));
}

#[test]
fn component_loads_once() {
    let mut db = GraphDB::new();
    let c = ordering();
    let needed = vec![c.duplicate()];
    assert_eq!(1, db.missing_components(&needed).len());
    db.register_component(&c);
    assert!(!db.is_loaded(&c));
    assert_eq!(1, db.missing_components(&needed).len());
    db.install_component(&c, GraphStorage::new());
    assert!(db.is_loaded(&c));
    assert_eq!(0, db.missing_components(&needed).len());
}

#[test]
fn count_is_deterministic() {
    let db = small_corpus();
    let first = count_of(&db, vec![a_before_noun(1, 1)]);
    let second = count_of(&db, vec![a_before_noun(1, 1)]);
    assert_eq!(2, first);
    assert_eq!(first, second);
}

#[test]
fn columns_follow_query_order() {
    let db = small_corpus();
    // the noun is node 0 and the "a" before it node 1
    let mut q = Conjunction::new();
    let n = q.add_node(NodeSearchSpec::new_exact(None, "pos", Some("NN")), None);
    let a = q.add_node(NodeSearchSpec::new_exact(Some(ANNIS_NS), TOK, Some("a")), None);
    q.add_operator(prec(1, 1), a, n);
    for index in [false, true] {
        let p = plan_conjunction(&db, &q, index).ok().unwrap();
        let rows = execute_conjunction(&db, &q, &p);
        assert_eq!(2, rows.len());
        for row in rows.iter() {
            assert!(row[0].node == 1 || row[0].node == 3);
            assert_eq!(row[0].node, row[1].node + 1);
        }
    }
}

#[test]
fn duplicate_alternatives_are_deduplicated() {
    let db = small_corpus();
    let plan = ExecutionPlan::from_disjunction(
        &Disjunction::new(vec![a_before_noun(1, 1), a_before_noun(1, 1)]),
        &db,
        Config { use_index_join: false },
    );
    let mut plan = match plan {
        Ok(p) => p,
        Err(_) => panic!("query could not be planned"),
    };
    let mut keys: Vec<Vec<(u64, u64)>> = Vec::new();
    while let Some(row) = plan.next() {
        let key: Vec<(u64, u64)> = row.iter().map(|m: &Match| (m.node, m.anno.key.name as u64)).collect();
        assert!(!keys.contains(&key));
        keys.push(key);
    }
    assert_eq!(2, keys.len());
    assert_eq!(0, plan.count());
}

#[test]
fn same_count_for_repeated_alternative() {
    let db = small_corpus();
    let one = count_of(&db, vec![a_before_noun(1, 3)]);
    let two = count_of(&db, vec![a_before_noun(1, 3), a_before_noun(1, 3)]);
    assert_eq!(3, one);
    assert_eq!(one, two);
}

#[test]
fn overlapping_alternatives_are_merged() {
    let db = small_corpus();
    let both = count_of(&db, vec![a_before_noun(1, 1), a_before_noun(1, 3)]);
    assert_eq!(3, both);
}

#[test]
fn connected_conjunction_plans() {
    let db = small_corpus();
    assert!(plan_conjunction(&db, &a_before_noun(1, 1), true).is_ok());
    let mut single = Conjunction::new();
    single.add_node(NodeSearchSpec::AnyToken, None);
    let p = plan_conjunction(&db, &single, true).ok().unwrap();
    assert_eq!(5, execute_conjunction(&db, &single, &p).len());
}

#[test]
fn unconnected_conjunction_fails() {
    let db = small_corpus();
    let mut q = Conjunction::new();
    q.add_node(NodeSearchSpec::AnyToken, None);
    q.add_node(NodeSearchSpec::AnyToken, None);
    assert_eq!(Some(PlanError::Unconnected), plan_conjunction(&db, &q, true).err());
    let r = ExecutionPlan::from_disjunction(&Disjunction::new(vec![q]), &db, Config { use_index_join: true });
    match r {
        Err(Error::ImpossibleSearch(e)) => assert_eq!(vec![PlanError::Unconnected], e),
        Ok(_) => panic!("an unconnected query was planned"),
    }
}

#[test]
fn planning_errors() {
    let db = small_corpus();
    let empty = Conjunction::new();
    assert_eq!(Some(PlanError::NoNodes), plan_conjunction(&db, &empty, true).err());

    let mut unknown = Conjunction::new();
    unknown.add_node(NodeSearchSpec::AnyToken, None);
    unknown.add_operator(prec(1, 1), 0, 5);
    assert_eq!(Some(PlanError::UnknownVariable), plan_conjunction(&db, &unknown, true).err());

    let mut unnamed = Conjunction::new();
    unnamed.nodes.push(NodeSearchSpec::AnyToken);
    assert_eq!(Some(PlanError::UnknownVariable), plan_conjunction(&db, &unnamed, true).err());

    let mut missing = Conjunction::new();
    missing.add_node(NodeSearchSpec::AnyToken, None);
    missing.add_node(NodeSearchSpec::AnyToken, None);
    missing.add_operator(
        OperatorSpec::Precedence(PrecedenceSpec { segmentation: Some(String::from("dipl")), min_dist: 1, max_dist: 1 }),
        0,
        1,
    );
    assert_eq!(Some(PlanError::MissingComponent), plan_conjunction(&db, &missing, true).err());
}

#[test]
fn token_and_node_searches() {
    let db = small_corpus();
    assert_eq!(5, node_search(&db, &NodeSearchSpec::AnyNode).len());
    assert_eq!(5, node_search(&db, &NodeSearchSpec::AnyToken).len());
    let a = NodeSearchSpec::ExactTokenValue { val: String::from("a"), leafs_only: true };
    assert_eq!(3, node_search(&db, &a).len());
    let none = NodeSearchSpec::new_exact(None, "lemma", None);
    assert_eq!(0, node_search(&db, &none).len());
    let unknown_value = NodeSearchSpec::new_exact(None, "pos", Some("VVFIN"));
    assert_eq!(0, node_search(&db, &unknown_value).len());
}

#[test]
fn distance_bounds() {
    let mut gs = GraphStorage::new();
    for i in 0..4u64 {
        gs.add_edge(Edge { source: i, target: i + 1 });
    }
    gs.add_edge(Edge { source: 0, target: 1 });
    assert!(gs.is_connected(0, 3, 1, 3));
    assert!(gs.is_connected(0, 3, 3, 3));
    assert!(!gs.is_connected(0, 3, 1, 2));
    assert!(!gs.is_connected(3, 0, 0, 10));
    assert!(gs.is_connected(2, 2, 0, 0));
    assert!(gs.is_connected(0, 4, 1, usize::MAX));
    let mut found = gs.find_connected(1, 1, 2);
    found.sort();
    assert_eq!(vec![2, 3], found);
    assert_eq!(vec![1], gs.get_outgoing_edges(0));
}

#[test]
fn reflexive_pairs_are_excluded() {
    let mut db = GraphDB::new();
    db.add_node_anno(0, ANNIS_NS, TOK, "x");
    let mut gs = GraphStorage::new();
    gs.add_edge(Edge { source: 0, target: 0 });
    db.install_component(&ordering(), gs);
    let m = node_search(&db, &NodeSearchSpec::AnyToken)[0];
    assert!(!op_check(&db, &prec(1, 1), m, m));
}

#[test]
fn annotation_value_replaced() {
    let mut db = GraphDB::new();
    db.add_node_anno(3, "tiger", "pos", "NN");
    db.add_node_anno(3, "tiger", "lemma", "Haus");
    db.add_node_anno(3, "tiger", "pos", "NE");
    let annos = db.node_annos.get_all(3);
    assert_eq!(2, annos.len());
    assert_eq!("NE", db.strings.str(annos[0].val).unwrap().as_str());
    let name = db.strings.find_id("pos").unwrap();
    assert_eq!(1, db.node_annos.number_of_annotations_by_name(None, name));
}

#[test]
fn query_parts() {
    assert!(is_regex(&Some(String::from("REGEXP_EQUAL"))));
    assert!(!is_regex(&Some(String::from("EXACT_EQUAL"))));
    assert!(!is_regex(&None));

    let anno = NodeAnnotationDesc {
        namespace: None,
        name: Some(String::from("pos")),
        value: Some(String::from("ADJA")),
        text_matching: Some(String::from("EXACT_EQUAL")),
    };
    let node = NodeDesc { annotations: vec![anno], spanned_text: None, span_text_matching: None, token: None };
    match node_spec(&node) {
        Some(NodeSearchSpec::ExactValue { ns, name, val }) => {
            assert_eq!(None, ns);
            assert_eq!("pos", name);
            assert_eq!(Some(String::from("ADJA")), val);
        },
        _ => panic!("expected an annotation search"),
    }
    let regex = NodeAnnotationDesc {
        namespace: None,
        name: Some(String::from("pos")),
        value: Some(String::from("AD.*")),
        text_matching: Some(String::from("REGEXP_EQUAL")),
    };
    match node_spec(&NodeDesc { annotations: vec![regex], spanned_text: None, span_text_matching: None, token: None }) {
        Some(NodeSearchSpec::RegexValue { ns, name, pattern }) => {
            assert_eq!(None, ns);
            assert_eq!("pos", name);
            assert_eq!("AD.*", pattern);
        },
        _ => panic!("expected a regular-expression search"),
    }
    let regex_tok = NodeDesc {
        annotations: vec![],
        spanned_text: Some(String::from("d.*")),
        span_text_matching: Some(String::from("REGEXP_EQUAL")),
        token: None,
    };
    assert!(matches!(node_spec(&regex_tok), Some(NodeSearchSpec::RegexTokenValue { leafs_only: false, .. })));
    let unnamed = NodeAnnotationDesc { namespace: None, name: None, value: None, text_matching: None };
    assert!(node_spec(&NodeDesc { annotations: vec![unnamed], spanned_text: None, span_text_matching: None, token: None }).is_none());
    let tok = NodeDesc { annotations: vec![], spanned_text: Some(String::from("der")), span_text_matching: None, token: Some(true) };
    match node_spec(&tok) {
        Some(NodeSearchSpec::ExactTokenValue { val, leafs_only }) => {
            assert_eq!("der", val);
            assert!(leafs_only);
        },
        _ => panic!("expected a token search"),
    }
    let any_tok = NodeDesc { annotations: vec![], spanned_text: None, span_text_matching: None, token: Some(true) };
    assert!(matches!(node_spec(&any_tok), Some(NodeSearchSpec::AnyToken)));
    let any = NodeDesc { annotations: vec![], spanned_text: None, span_text_matching: None, token: None };
    assert!(matches!(node_spec(&any), Some(NodeSearchSpec::AnyNode)));

    let mut q = Conjunction::new();
    q.add_node(NodeSearchSpec::AnyToken, Some("1"));
    q.add_node(NodeSearchSpec::AnyToken, Some("2"));
    assert!(add_precedence_join(&mut q, "1", "2", 1, 1, None));
    assert!(!add_precedence_join(&mut q, "1", "3", 1, 1, None));
    assert_eq!(1, q.operators.len());
    assert_eq!((0, 1), (q.operators[0].lhs, q.operators[0].rhs));
}

#[test]
fn variable_positions() {
    let mut q1 = Conjunction::new();
    q1.add_node(NodeSearchSpec::AnyToken, Some("x"));
    let mut q2 = Conjunction::new();
    q2.add_node(NodeSearchSpec::AnyToken, Some("y"));
    q2.add_node(NodeSearchSpec::AnyNode, Some("z"));
    let d = Disjunction::new(vec![q1, q2]);
    assert_eq!(Some(0), d.get_variable_pos("x"));
    assert_eq!(Some(1), d.get_variable_pos("z"));
    assert_eq!(None, d.get_variable_pos("w"));
}

#[test]
fn necessary_components_are_unique() {
    let d = Disjunction::new(vec![a_before_noun(1, 1), a_before_noun(2, 2)]);
    let cs = d.necessary_components();
    assert_eq!(1, cs.len());
    assert!(cs[0] == ordering());
}

#[test]
fn corpus_registry() {
    assert!(str_lt("GUM", "pcc2"));
    assert!(!str_lt("pcc2", "pcc2"));
    assert!(str_lt("pcc", "pcc2"));

    let mut cs = CorpusStorage::new(Some(1));
    cs.register("pcc2");
    cs.register("GUM");
    cs.register("pcc2");
    assert_eq!(vec![String::from("GUM"), String::from("pcc2")], cs.list());

    let q = Disjunction::new(vec![a_before_noun(1, 1)]);
    assert!(matches!(cs.count("tiger", &q, Config { use_index_join: true }), Err(CorpusError::CorpusNotFound)));
    assert!(matches!(cs.count("pcc2", &q, Config { use_index_join: true }), Err(CorpusError::LoadingFailed)));
    match cs.missing_components("pcc2", &q.necessary_components()) {
        Ok(None) => {},
        _ => panic!("the database should not be loaded"),
    }

    let mut db = small_corpus();
    db.components.clear();
    cs.import("pcc2", db);
    match cs.missing_components("pcc2", &q.necessary_components()) {
        Ok(Some(v)) => assert_eq!(1, v.len()),
        _ => panic!("the component should be missing"),
    }
    assert!(matches!(cs.count("pcc2", &q, Config { use_index_join: true }), Err(CorpusError::ImpossibleSearch(_))));

    let mut gs = GraphStorage::new();
    for i in 0..4u64 {
        gs.add_edge(Edge { source: i, target: i + 1 });
    }
    assert!(cs.install_component("pcc2", &ordering(), gs));
    assert!(!cs.install_component("GUM", &ordering(), GraphStorage::new()));
    match cs.count("pcc2", &q, Config { use_index_join: true }) {
        Ok(n) => assert_eq!(2, n),
        Err(e) => panic!("{:?}", e),
    }

    assert!(cs.evict_least_recently_used());
    assert!(!cs.evict_least_recently_used());
    assert!(matches!(cs.count("pcc2", &q, Config { use_index_join: true }), Err(CorpusError::LoadingFailed)));
}

#[test]
fn cache_limit_evicts_least_recently_used() {
    let mut cs = CorpusStorage::new(Some(1));
    cs.import("a", small_corpus());
    cs.import("b", small_corpus());
    assert_eq!(2, cs.count_loaded());
    let q = Disjunction::new(vec![a_before_noun(1, 1)]);
    // "a" is used after "b" was imported, so "b" is the least recently used
    assert!(matches!(cs.count("a", &q, Config { use_index_join: true }), Ok(2)));
    cs.enforce_cache_size();
    assert_eq!(1, cs.count_loaded());
    assert!(matches!(cs.count("b", &q, Config { use_index_join: true }), Err(CorpusError::LoadingFailed)));
    assert!(matches!(cs.count("a", &q, Config { use_index_join: true }), Ok(2)));
}

#[test]
fn shortest_distance() {
    let mut gs = GraphStorage::new();
    for i in 0..4u64 {
        gs.add_edge(Edge { source: i, target: i + 1 });
    }
    gs.add_edge(Edge { source: 0, target: 3 });
    assert_eq!(Some(0), gs.distance(2, 2));
    assert_eq!(Some(1), gs.distance(0, 3));
    assert_eq!(Some(2), gs.distance(0, 4));
    assert_eq!(None, gs.distance(4, 0));
}

#[test]
fn find_pages_through_matches() {
    let mut cs = CorpusStorage::new(None);
    cs.import("pcc2", small_corpus());
    let q = Disjunction::new(vec![a_before_noun(1, 3)]);
    let all = match cs.find("pcc2", &q, Config { use_index_join: true }, 0, 10) {
        Ok(rows) => rows,
        Err(e) => panic!("{:?}", e),
    };
    assert_eq!(3, all.len());
    let page = match cs.find("pcc2", &q, Config { use_index_join: true }, 1, 1) {
        Ok(rows) => rows,
        Err(e) => panic!("{:?}", e),
    };
    assert_eq!(1, page.len());
    assert_eq!(all[1], page[0]);
    match cs.find("pcc2", &q, Config { use_index_join: true }, 5, 1) {
        Ok(rows) => assert!(rows.is_empty()),
        Err(e) => panic!("{:?}", e),
    }
}

#[test]
fn regex_searches_match_whole_values() {
    let db = small_corpus();
    let nn = NodeSearchSpec::RegexValue { ns: None, name: String::from("pos"), pattern: String::from("N.") };
    assert_eq!(2, node_search(&db, &nn).len());
    let prefix = NodeSearchSpec::RegexValue { ns: None, name: String::from("pos"), pattern: String::from("N") };
    assert_eq!(0, node_search(&db, &prefix).len());
    let invalid = NodeSearchSpec::RegexValue { ns: None, name: String::from("pos"), pattern: String::from("(") };
    assert_eq!(0, node_search(&db, &invalid).len());
    let toks = NodeSearchSpec::RegexTokenValue { pattern: String::from("a|b"), leafs_only: false };
    assert_eq!(4, node_search(&db, &toks).len());
}

#[test]
fn leafs_only_excludes_covering_nodes() {
    let mut db = small_corpus();
    // node 5 spans tokens 0 and 1 and carries the text "a" as well
    db.add_node_anno(5, ANNIS_NS, TOK, "a");
    let mut cov = GraphStorage::new();
    cov.add_edge(Edge { source: 5, target: 0 });
    cov.add_edge(Edge { source: 5, target: 1 });
    db.install_component(&Component::new(ComponentType::Coverage, "", ""), cov);
    let all = NodeSearchSpec::ExactTokenValue { val: String::from("a"), leafs_only: false };
    assert_eq!(4, node_search(&db, &all).len());
    let leaves = NodeSearchSpec::ExactTokenValue { val: String::from("a"), leafs_only: true };
    let found = node_search(&db, &leaves);
    assert_eq!(3, found.len());
    assert!(found.iter().all(|m| m.node != 5));
}

#[test]
fn repeated_queries_agree() {
    let mut cs = CorpusStorage::new(None);
    cs.import("pcc2", small_corpus());
    let q = Disjunction::new(vec![a_before_noun(1, 3)]);
    let c1 = cs.count("pcc2", &q, Config { use_index_join: true });
    let c2 = cs.count("pcc2", &q, Config { use_index_join: true });
    assert!(matches!((c1, c2), (Ok(3), Ok(3))));
    let p1 = cs.find("pcc2", &q, Config { use_index_join: true }, 1, 2).ok().unwrap();
    let p2 = cs.find("pcc2", &q, Config { use_index_join: true }, 1, 2).ok().unwrap();
    assert_eq!(p1, p2);
}

#[test]
fn impossible_search_carries_reasons() {
    let mut cs = CorpusStorage::new(None);
    cs.import("pcc2", small_corpus());
    let mut unconnected = Conjunction::new();
    unconnected.add_node(NodeSearchSpec::AnyToken, None);
    unconnected.add_node(NodeSearchSpec::AnyToken, None);
    let q = Disjunction::new(vec![Conjunction::new(), unconnected]);
    match cs.count("pcc2", &q, Config { use_index_join: true }) {
        Err(CorpusError::ImpossibleSearch(e)) => assert_eq!(vec![PlanError::NoNodes, PlanError::Unconnected], e),
        _ => panic!("expected an impossible search"),
    }
}

#[test]
fn registering_keeps_loaded_corpora() {
    let mut cs = CorpusStorage::new(None);
    cs.import("pcc2", small_corpus());
    cs.register("GUM");
    cs.register("pcc2");
    assert_eq!(1, cs.count_loaded());
    let q = Disjunction::new(vec![a_before_noun(1, 1)]);
    assert!(matches!(cs.count("GUM", &q, Config { use_index_join: true }), Err(CorpusError::LoadingFailed)));
    assert!(matches!(cs.count("pcc2", &q, Config { use_index_join: true }), Ok(2)));
}
