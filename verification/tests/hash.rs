use serde_yaml::{Mapping, Value};
use vanplan::hash::{decode, encode, payload_from, yaml_from_hash_str};
use vanplan::model::{check_document, Document, Edge, Node};

fn two_node_doc() -> (Vec<Node>, Vec<Edge>) {
    let nodes = vec![
        Node {
            id: "a".into(),
            text: "Pick chair".into(),
            color: "#c4b8a8".into(),
            done: true,
        },
        Node {
            id: "b".into(),
            text: "Build desk".into(),
            color: "#a8b0b8".into(),
            done: false,
        },
    ];
    let edges = vec![Edge {
        from: "a".into(),
        to: "b".into(),
    }];
    (nodes, edges)
}

/// Writes a document in the application's file layout. The application
/// writes it through serde-derived copies of the document types; derives
/// cannot be used here, so this builds the same YAML by hand.
fn to_yaml(nodes: &[Node], edges: &[Edge]) -> String {
    let mut doc = Mapping::new();
    doc.insert(Value::from("vanplan"), Value::from(1u32));
    let mut ns = Vec::new();
    for n in nodes {
        let mut m = Mapping::new();
        m.insert(Value::from("id"), Value::from(n.id.clone()));
        m.insert(Value::from("text"), Value::from(n.text.clone()));
        m.insert(Value::from("color"), Value::from(n.color.clone()));
        m.insert(Value::from("done"), Value::from(n.done));
        ns.push(Value::Mapping(m));
    }
    doc.insert(Value::from("nodes"), Value::Sequence(ns));
    let mut es = Vec::new();
    for e in edges {
        let mut m = Mapping::new();
        m.insert(Value::from("from"), Value::from(e.from.clone()));
        m.insert(Value::from("to"), Value::from(e.to.clone()));
        es.push(Value::Mapping(m));
    }
    doc.insert(Value::from("edges"), Value::Sequence(es));
    serde_yaml::to_string(&Value::Mapping(doc)).unwrap()
}

/// Reads a document in the application's file layout, by hand as above
/// (`done` falls back to `false` when missing, as in the application,
/// where serde fills in the default), then runs the library's checks on it.
fn from_yaml(src: &str) -> Result<Document, String> {
    let v: Value = serde_yaml::from_str(src).map_err(|e| e.to_string())?;
    let field = |m: &Value, k: &str| -> String { m.get(k).and_then(|x| x.as_str()).unwrap().to_string() };
    let vanplan = v.get("vanplan").and_then(|x| x.as_u64()).unwrap() as u32;
    let mut nodes = Vec::new();
    if let Some(ns) = v.get("nodes").and_then(|x| x.as_sequence()) {
        for n in ns {
            nodes.push(Node {
                id: field(n, "id"),
                text: field(n, "text"),
                color: field(n, "color"),
                done: n.get("done").and_then(|x| x.as_bool()).unwrap_or(false),
            });
        }
    }
    let mut edges = Vec::new();
    if let Some(es) = v.get("edges").and_then(|x| x.as_sequence()) {
        for e in es {
            edges.push(Edge {
                from: field(e, "from"),
                to: field(e, "to"),
            });
        }
    }
    check_document(Document { vanplan, nodes, edges })
}

#[test]
fn roundtrip_empty_doc() {
    let yaml = to_yaml(&[], &[]);
    let hash = encode(&yaml).unwrap();
    assert!(hash.starts_with("vp1."));
    assert!(!hash[4..].contains('='));
    let back = decode(&hash).unwrap();
    let doc = from_yaml(&back).unwrap();
    assert!(doc.nodes.is_empty());
    assert!(doc.edges.is_empty());
    assert_eq!(decode(&format!("#{hash}")).unwrap(), back);
}

#[test]
fn roundtrip_two_node_one_edge() {
    let (nodes, edges) = two_node_doc();
    let yaml = to_yaml(&nodes, &edges);
    let hash = encode(&yaml).unwrap();
    let doc = from_yaml(&decode(&hash).unwrap()).unwrap();
    assert_eq!(doc.nodes, nodes);
    assert_eq!(doc.edges, edges);
}

#[test]
fn cycle_cleaned_from_yaml_still_encodes() {
    let yaml = "\
vanplan: 1
nodes:
- id: a
  text: A
  color: '#c4b8a8'
- id: b
  text: B
  color: '#a8b0b8'
edges:
- from: a
  to: b
- from: b
  to: a
";
    let doc = from_yaml(yaml).unwrap();
    assert_eq!(doc.edges.len(), 1);
    assert_eq!(doc.edges[0].from, "a");
    assert_eq!(doc.edges[0].to, "b");
    let cleaned = to_yaml(&doc.nodes, &doc.edges);
    let hash = encode(&cleaned).unwrap();
    let again = from_yaml(&decode(&hash).unwrap()).unwrap();
    assert_eq!(again, doc);
}

/// Encoder's gzip+base64url of a known YAML string decodes back to that YAML.
#[test]
fn known_yaml_gzip_base64url_roundtrip() {
    let yaml = "vanplan: 1\nnodes: []\nedges: []\n";
    let hash = encode(yaml).unwrap();
    assert!(hash.starts_with("vp1."));
    assert!(!hash.contains('='));
    assert_eq!(decode(&hash).unwrap(), yaml);
    assert_eq!(decode(&format!("#{hash}")).unwrap(), yaml);
    assert_eq!(
        decode(&format!("http://127.0.0.1:8080/#{hash}")).unwrap(),
        yaml
    );
}

/// gzip (level 9, mtime 0) + urlsafe base64 of the known YAML, made by another encoder.
const PY_EMPTY_HASH: &str = "vp1.H4sIAAAAAAAC_ytLzCvIScyzUjDkystPSS22UoiO5UpNSYeyABFfqaYfAAAA";
const PY_EMPTY_YAML: &str = "vanplan: 1\nnodes: []\nedges: []\n";

#[test]
fn rust_decode_accepts_python_vector() {
    assert_eq!(decode(PY_EMPTY_HASH).unwrap(), PY_EMPTY_YAML);
    assert_eq!(decode(&format!("#{PY_EMPTY_HASH}")).unwrap(), PY_EMPTY_YAML);
}

#[test]
fn encode_is_prefix_then_base64url() {
    let hash = encode("hello").unwrap();
    assert!(hash.starts_with("vp1.H4sI"));
    assert!(hash[4..].chars().all(|c| c.is_ascii_alphanumeric() || c == '-' || c == '_'));
    assert_ne!(&hash[4..], "hello");
}

#[test]
fn payload_from_accepts_all_forms() {
    assert_eq!(payload_from("vp1.abc"), Ok("abc".to_string()));
    assert_eq!(payload_from("  #vp1.abc  "), Ok("abc".to_string()));
    assert_eq!(payload_from("https://vanplan.lol/#vp1.abc"), Ok("abc".to_string()));
    assert_eq!(payload_from("x#vp1.old#vp1.new"), Ok("new".to_string()));
    assert_eq!(payload_from("https://vanplan.lol/# vp1.abc "), Ok("abc".to_string()));
    assert_eq!(payload_from("##vp1.abc"), Ok("abc".to_string()));
}

#[test]
fn payload_from_errors() {
    assert_eq!(payload_from("abc"), Err("not a vp1 hash".to_string()));
    assert_eq!(payload_from("#"), Err("not a vp1 hash".to_string()));
    assert_eq!(payload_from("vp1."), Err("empty vp1 payload".to_string()));
    assert_eq!(payload_from("http://x/#vp1."), Err("empty vp1 payload".to_string()));
}

#[test]
fn decode_rejects_bad_payloads() {
    assert_eq!(decode("nope"), Err("not a vp1 hash".to_string()));
    assert!(decode("vp1.!!!!").is_err());
    assert!(decode("vp1.aGVsbG8").is_err());
}

#[test]
fn hash_to_yaml() {
    assert_eq!(yaml_from_hash_str(""), Ok(None));
    assert_eq!(yaml_from_hash_str("  # "), Ok(None));
    let hash = encode("x: 1\n").unwrap();
    assert_eq!(yaml_from_hash_str(&format!("#{hash}")), Ok(Some("x: 1\n".to_string())));
    assert!(yaml_from_hash_str("#garbage").is_err());
}
