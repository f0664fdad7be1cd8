use graphannis::graphdb::GraphDB;
use graphannis::graphstorage::GraphStorage;
use graphannis::plan::plan_conjunction;
use graphannis::exec::execute_conjunction;
use graphannis::query::{Conjunction, NodeSearchSpec, OperatorSpec, PrecedenceSpec, ANNIS_NS, TOK};
use graphannis::search::node_search;
use graphannis::types::{Annotation, Component, ComponentType, Edge};

fn text(db: &GraphDB, id: usize) -> String {
    db.strings.str(id).unwrap().clone()
}

/// A corpus of 40 tokens in one chain; 9 read "der", 18 carry pos=ADJA and
/// 3 of those directly follow a "der".
fn load_corpus() -> GraphDB {
    let mut db = GraphDB::new();
    let der = [0u64, 4, 8, 12, 16, 20, 24, 28, 32];
    let adja = [1u64, 5, 9, 3, 7, 11, 14, 18, 19, 22, 23, 26, 27, 30, 31, 34, 35, 38];
    for i in 0..40u64 {
        db.add_node_anno(i, ANNIS_NS, "node_type", "node");
        let word = if der.contains(&i) { "der" } else { "Haus" };
        db.add_node_anno(i, ANNIS_NS, TOK, word);
        let pos = if adja.contains(&i) { "ADJA" } else { "NN" };
        db.add_node_anno(i, "tiger", "pos", pos);
    }
    let mut gs = GraphStorage::new();
    for i in 0..39u64 {
        gs.add_edge(Edge { source: i, target: i + 1 });
    }
    db.install_component(&Component::new(ComponentType::Ordering, ANNIS_NS, ""), gs);
    db
}

fn precedence() -> PrecedenceSpec {
    PrecedenceSpec { segmentation: None, min_dist: 1, max_dist: 1 }
}

fn der_before_adja() -> Conjunction {
    let mut q = Conjunction::new();
    let n1 = q.add_node(NodeSearchSpec::new_exact(Some(ANNIS_NS), TOK, Some("der")), None);
    let n2 = q.add_node(NodeSearchSpec::new_exact(None, "pos", Some("ADJA")), None);
    q.add_operator(OperatorSpec::Precedence(precedence()), n1, n2);
    q
}

#[test]
fn node_annos() {
    let mut db = GraphDB::new();
    db.add_node_anno(0, "annis", "node_name", "pcc2/4282#tok_13");
    db.add_node_anno(0, "annis", "tok", "so");
    db.add_node_anno(0, "annis", "node_type", "node");
    db.add_node_anno(0, "annis", "layer", "token_merged");
    db.add_node_anno(0, "tiger", "lemma", "so");
    db.add_node_anno(0, "tiger", "morph", "--");
    db.add_node_anno(0, "tiger", "pos", "ADV");
    db.add_node_anno(1, "annis", "tok", "nicht");

    let annos: Vec<Annotation> = db.node_annos.get_all(0);
    assert_eq!(7, annos.len());

    let expected = [
        ("annis", "node_name", "pcc2/4282#tok_13"),
        ("annis", "tok", "so"),
        ("annis", "node_type", "node"),
        ("annis", "layer", "token_merged"),
        ("tiger", "lemma", "so"),
        ("tiger", "morph", "--"),
        ("tiger", "pos", "ADV"),
    ];
    for (a, (ns, name, val)) in annos.iter().zip(expected.iter()) {
        assert_eq!(*ns, text(&db, a.key.ns));
        assert_eq!(*name, text(&db, a.key.name));
        assert_eq!(*val, text(&db, a.val));
    }
}

#[test]
fn edges() {
    let mut db = GraphDB::new();
    let edge = Edge { source: 371, target: 126 };
    let func = db.strings.add("func");
    let tiger = db.strings.add("tiger");
    let oa = db.strings.add("OA");
    let oa_anno = Annotation { key: graphannis::types::AnnoKey { ns: tiger, name: func }, val: oa };
    let comps = [
        Component::new(ComponentType::Coverage, "tiger", ""),
        Component::new(ComponentType::Dominance, "tiger", ""),
        Component::new(ComponentType::Dominance, "tiger", "edge"),
        Component::new(ComponentType::LeftToken, "annis", ""),
        Component::new(ComponentType::Pointing, "tiger", "other"),
    ];
    for (i, c) in comps.iter().enumerate() {
        let mut gs = GraphStorage::new();
        if i < 4 {
            gs.add_edge(edge);
        }
        gs.add_edge(Edge { source: 371, target: 127 });
        if i == 1 || i == 2 {
            gs.add_edge_anno(edge, oa_anno);
        }
        db.install_component(c, gs);
    }

    let edge_components = db.get_direct_connected(&edge);
    assert_eq!(4, edge_components.len());

    for i in [1usize, 2] {
        let edge_annos = db.get_graphstorage(&edge_components[i]).unwrap().get_edge_annos(&edge);
        assert_eq!(1, edge_annos.len());
        assert_eq!("tiger", text(&db, edge_annos[0].key.ns));
        assert_eq!("func", text(&db, edge_annos[0].key.name));
        assert_eq!("OA", text(&db, edge_annos[0].val));
    }
    for i in [0usize, 3] {
        let edge_annos = db.get_graphstorage(&edge_components[i]).unwrap().get_edge_annos(&edge);
        assert_eq!(0, edge_annos.len());
    }
}

#[test]
fn count_annos() {
    let db = load_corpus();
    let n = node_search(&db, &NodeSearchSpec::new_exact(Some(ANNIS_NS), TOK, Some("der")));
    assert_eq!(9, n.len());
    let n = node_search(&db, &NodeSearchSpec::new_exact(None, "pos", Some("ADJA")));
    assert_eq!(18, n.len());
}

#[test]
fn nested_loop_join() {
    let db = load_corpus();
    for c in OperatorSpec::Precedence(precedence()).necessary_components() {
        assert!(db.is_loaded(&c), "Loading component unsuccessful");
    }
    let q = der_before_adja();
    let p = plan_conjunction(&db, &q, false).ok().unwrap();
    assert!(p.index_op.iter().all(|j| j.is_none()));
    let rows = execute_conjunction(&db, &q, &p);
    assert_eq!(3, rows.len());
}

#[test]
fn index_join() {
    let db = load_corpus();
    for c in OperatorSpec::Precedence(precedence()).necessary_components() {
        assert!(db.is_loaded(&c), "Loading component unsuccessful");
    }
    let q = der_before_adja();
    let p = plan_conjunction(&db, &q, true).ok().unwrap();
    assert!(p.index_op.iter().any(|j| j.is_some()));
    let rows = execute_conjunction(&db, &q, &p);
    assert_eq!(3, rows.len());
}
