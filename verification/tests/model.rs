use serde_yaml::{Mapping, Value};
use vanplan::model::{add_edge, check_document, edge_exists, fresh_id, would_cycle, Document, Edge, Node};

fn edge(from: &str, to: &str) -> Edge {
    Edge {
        from: from.to_string(),
        to: to.to_string(),
    }
}

fn node(id: &str) -> Node {
    Node {
        id: id.to_string(),
        text: String::new(),
        color: "#c4b8a8".to_string(),
        done: false,
    }
}

/// Writes a document in the application's file layout. The application
/// writes it through serde-derived copies of the document types; derives
/// cannot be used here, so this builds the same YAML by hand.
fn to_yaml(nodes: &[Node], edges: &[Edge]) -> String {
    let mut doc = Mapping::new();
    doc.insert(Value::from("vanplan"), Value::from(1u32));
    let mut ns = Vec::new();
    for n in nodes {
        let mut m = Mapping::new();
        m.insert(Value::from("id"), Value::from(n.id.clone()));
        m.insert(Value::from("text"), Value::from(n.text.clone()));
        m.insert(Value::from("color"), Value::from(n.color.clone()));
        m.insert(Value::from("done"), Value::from(n.done));
        ns.push(Value::Mapping(m));
    }
    doc.insert(Value::from("nodes"), Value::Sequence(ns));
    let mut es = Vec::new();
    for e in edges {
        let mut m = Mapping::new();
        m.insert(Value::from("from"), Value::from(e.from.clone()));
        m.insert(Value::from("to"), Value::from(e.to.clone()));
        es.push(Value::Mapping(m));
    }
    doc.insert(Value::from("edges"), Value::Sequence(es));
    serde_yaml::to_string(&Value::Mapping(doc)).unwrap()
}

/// Reads a document in the application's file layout, by hand as above
/// (`done` falls back to `false` when missing, as in the application,
/// where serde fills in the default), then runs the library's checks on it.
fn from_yaml(src: &str) -> Result<Document, String> {
    let v: Value = serde_yaml::from_str(src).map_err(|e| e.to_string())?;
    let field = |m: &Value, k: &str| -> String { m.get(k).and_then(|x| x.as_str()).unwrap().to_string() };
    let vanplan = v.get("vanplan").and_then(|x| x.as_u64()).unwrap() as u32;
    let mut nodes = Vec::new();
    if let Some(ns) = v.get("nodes").and_then(|x| x.as_sequence()) {
        for n in ns {
            nodes.push(Node {
                id: field(n, "id"),
                text: field(n, "text"),
                color: field(n, "color"),
                done: n.get("done").and_then(|x| x.as_bool()).unwrap_or(false),
            });
        }
    }
    let mut edges = Vec::new();
    if let Some(es) = v.get("edges").and_then(|x| x.as_sequence()) {
        for e in es {
            edges.push(Edge {
                from: field(e, "from"),
                to: field(e, "to"),
            });
        }
    }
    check_document(Document { vanplan, nodes, edges })
}

#[test]
fn cycle_reject_self() {
    assert!(would_cycle(&[], "a", "a"));
}

#[test]
fn cycle_reject_back_edge() {
    let edges = vec![Edge {
        from: "a".into(),
        to: "b".into(),
    }];
    assert!(would_cycle(&edges, "b", "a"));
    assert!(!would_cycle(&edges, "a", "c"));
    assert!(!would_cycle(&edges, "c", "a"));
}

#[test]
fn cycle_reject_longer() {
    let mut edges = Vec::new();
    assert!(add_edge(&mut edges, "a".into(), "b".into()));
    assert!(add_edge(&mut edges, "b".into(), "c".into()));
    assert!(!add_edge(&mut edges, "c".into(), "a".into()));
    assert!(add_edge(&mut edges, "a".into(), "c".into()));
}

#[test]
fn yaml_roundtrip() {
    let nodes = vec![
        Node {
            id: "chair".into(),
            text: "Pick chair location".into(),
            color: "#e8d5b7".into(),
            done: true,
        },
        Node {
            id: "desk".into(),
            text: "Build desk".into(),
            color: "#c4a574".into(),
            done: false,
        },
    ];
    let edges = vec![Edge {
        from: "chair".into(),
        to: "desk".into(),
    }];
    let yaml = to_yaml(&nodes, &edges);
    assert!(yaml.contains("vanplan: 1"));
    assert!(yaml.contains("done: true"));
    assert!(yaml.contains("done: false"));
    let doc = from_yaml(&yaml).unwrap();
    assert_eq!(doc.nodes, nodes);
    assert_eq!(doc.edges, edges);
    assert!(doc.nodes[0].done);
    assert!(!doc.nodes[1].done);
}

#[test]
fn yaml_done_defaults_false_on_old_docs() {
    let yaml = "\
vanplan: 1
nodes:
- id: a
  text: A
  color: '#c4b8a8'
edges: []
";
    let doc = from_yaml(yaml).unwrap();
    assert_eq!(doc.nodes.len(), 1);
    assert!(!doc.nodes[0].done);
}

#[test]
fn would_cycle_follows_long_paths() {
    let edges = vec![edge("a", "b"), edge("b", "c"), edge("c", "d"), edge("x", "y")];
    assert!(would_cycle(&edges, "d", "a"));
    assert!(would_cycle(&edges, "c", "b"));
    assert!(!would_cycle(&edges, "a", "d"));
    assert!(!would_cycle(&edges, "y", "a"));
    assert!(!would_cycle(&edges, "d", "x"));
}

#[test]
fn add_edge_rejects_duplicates() {
    let mut edges = vec![edge("a", "b")];
    assert!(!add_edge(&mut edges, "a".into(), "b".into()));
    assert_eq!(edges, vec![edge("a", "b")]);
    assert!(edge_exists(&edges, "a", "b"));
    assert!(!edge_exists(&edges, "b", "a"));
}

#[test]
fn added_edges_never_close_a_cycle() {
    let mut edges = Vec::new();
    let names = ["a", "b", "c", "d"];
    for f in names {
        for t in names {
            add_edge(&mut edges, f.to_string(), t.to_string());
        }
    }
    // Every pair went in one way at most: a total order a < b < c < d.
    assert_eq!(edges.len(), 6);
    for e in &edges {
        assert!(!would_cycle(&edges, &e.from, &e.to));
        assert!(would_cycle(&edges, &e.to, &e.from));
    }
}

#[test]
fn fresh_id_skips_taken_ids() {
    let nodes = vec![node("n1"), node("n2"), node("n4")];
    let mut next = 1;
    assert_eq!(fresh_id(&mut next, &nodes), "n3");
    assert_eq!(next, 4);
    assert_eq!(fresh_id(&mut next, &nodes), "n5");
    assert_eq!(next, 6);
    let mut last = u32::MAX;
    assert_eq!(fresh_id(&mut last, &nodes), "n4294967295");
    assert_eq!(last, u32::MAX);
}

#[test]
fn check_document_rejects_other_versions() {
    let doc = Document {
        vanplan: 2,
        nodes: vec![],
        edges: vec![],
    };
    assert_eq!(check_document(doc), Err("unsupported vanplan version 2".to_string()));
}

#[test]
fn check_document_cleans_edges() {
    let doc = Document {
        vanplan: 1,
        nodes: vec![node("a"), node("b"), node("c")],
        edges: vec![
            edge("a", "b"),
            edge("a", "b"),
            edge("b", "ghost"),
            edge("b", "c"),
            edge("c", "a"),
            edge("a", "c"),
        ],
    };
    let clean = check_document(doc).unwrap();
    assert_eq!(clean.edges, vec![edge("a", "b"), edge("b", "c"), edge("a", "c")]);
    assert_eq!(clean.nodes.len(), 3);
}

#[test]
fn cleaning_twice_changes_nothing() {
    let doc = Document {
        vanplan: 1,
        nodes: vec![node("a"), node("b"), node("c")],
        edges: vec![edge("b", "a"), edge("a", "b"), edge("c", "b"), edge("a", "c"), edge("c", "c")],
    };
    let once = check_document(doc).unwrap();
    let twice = check_document(once.clone()).unwrap();
    assert_eq!(twice, once);
    assert_eq!(once.edges, vec![edge("b", "a"), edge("c", "b")]);
}
