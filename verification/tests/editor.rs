use vanplan::editor::{Msg, State, WireDir};
use vanplan::model::{would_cycle, Document, Edge, Node};

fn state_with(ids: &[&str]) -> State {
    let mut s = State::new();
    for _ in ids {
        s.reduce(Msg::AddNode);
    }
    s
}

#[test]
fn add_node_picks_fresh_ids() {
    let mut s = State::new();
    assert!(s.reduce(Msg::AddNode));
    assert!(s.reduce(Msg::AddNode));
    assert_eq!(s.nodes[0].id, "n1");
    assert_eq!(s.nodes[1].id, "n2");
    assert_eq!(s.nodes[1].color, "#c4b8a8");
    assert_eq!(s.selected.as_deref(), Some("n2"));
    assert_eq!(s.focus_id.as_deref(), Some("n2"));
    assert_eq!(s.next_n, 3);
}

#[test]
fn wires_make_edges_and_reject_cycles() {
    let mut s = state_with(&["a", "b", "c"]);
    s.reduce(Msg::StartWire { source: "n1".into(), dir: WireDir::FromPre });
    assert!(s.reduce(Msg::EndWire { target: Some("n2".into()) }));
    s.reduce(Msg::StartWire { source: "n3".into(), dir: WireDir::FromDep });
    assert!(s.reduce(Msg::EndWire { target: Some("n2".into()) }));
    assert_eq!(s.edges, vec![
        Edge { from: "n1".into(), to: "n2".into() },
        Edge { from: "n2".into(), to: "n3".into() },
    ]);
    s.reduce(Msg::StartWire { source: "n3".into(), dir: WireDir::FromPre });
    assert!(s.reduce(Msg::EndWire { target: Some("n1".into()) }));
    assert_eq!(s.edges.len(), 2);
    assert!(s.wiring.is_none());
    assert!(!s.reduce(Msg::EndWire { target: Some("n1".into()) }));
}

#[test]
fn edit_cards() {
    let mut s = state_with(&["a"]);
    assert!(!s.reduce(Msg::SetText { id: "n1".into(), text: "Build desk".into() }));
    assert!(!s.reduce(Msg::CycleColor { id: "n1".into() }));
    assert!(!s.reduce(Msg::ToggleDone { id: "n1".into() }));
    assert_eq!(s.nodes[0].text, "Build desk");
    assert_eq!(s.nodes[0].color, "#a8b0b8");
    assert!(s.nodes[0].done);
    assert!(!s.reduce(Msg::SetText { id: "zz".into(), text: "x".into() }));
    assert_eq!(s.nodes[0].text, "Build desk");
}

#[test]
fn delete_node_drops_its_edges() {
    let mut s = state_with(&["a", "b", "c"]);
    s.reduce(Msg::StartWire { source: "n1".into(), dir: WireDir::FromPre });
    s.reduce(Msg::EndWire { target: Some("n2".into()) });
    s.reduce(Msg::StartWire { source: "n2".into(), dir: WireDir::FromPre });
    s.reduce(Msg::EndWire { target: Some("n3".into()) });
    s.reduce(Msg::Select { id: Some("n2".into()) });
    assert!(s.reduce(Msg::DeleteNode { id: "n2".into() }));
    assert_eq!(s.nodes.len(), 2);
    assert!(s.edges.is_empty());
    assert!(s.selected.is_none());
    assert!(!would_cycle(&s.edges, "n3", "n1"));
}

#[test]
fn delete_wire_and_load() {
    let mut s = state_with(&["a", "b"]);
    s.reduce(Msg::StartWire { source: "n1".into(), dir: WireDir::FromPre });
    s.reduce(Msg::EndWire { target: Some("n2".into()) });
    assert!(s.reduce(Msg::DeleteWire { from: "n1".into(), to: "n2".into() }));
    assert!(s.edges.is_empty());
    let doc = Document {
        vanplan: 1,
        nodes: vec![Node { id: "x".into(), text: "X".into(), color: "#9ca0b0".into(), done: false }],
        edges: vec![],
    };
    assert!(s.reduce(Msg::Load(doc)));
    assert_eq!(s.nodes.len(), 1);
    assert_eq!(s.nodes[0].id, "x");
    assert!(s.selected.is_none());
    assert_eq!(s.next_n, 3);
}

#[test]
fn layout_inputs() {
    let mut s = state_with(&["a", "b"]);
    s.reduce(Msg::StartWire { source: "n1".into(), dir: WireDir::FromPre });
    s.reduce(Msg::EndWire { target: Some("n2".into()) });
    assert_eq!(s.layout_ids(), vec!["n1".to_string(), "n2".to_string()]);
    assert_eq!(s.layout_edges(), vec![("n1".to_string(), "n2".to_string())]);
    assert_eq!(s.node_index("n2"), Some(1));
    assert_eq!(s.node_index("zz"), None);
}

#[test]
fn new_cards_after_load_skip_taken_ids() {
    let mut s = State::default();
    let doc = Document {
        vanplan: 1,
        nodes: vec![
            Node { id: "n1".into(), text: "A".into(), color: "#c4b8a8".into(), done: false },
            Node { id: "n2".into(), text: "B".into(), color: "#c4b8a8".into(), done: true },
        ],
        edges: vec![],
    };
    s.reduce(Msg::Load(doc));
    s.reduce(Msg::AddNode);
    assert_eq!(s.nodes.len(), 3);
    assert_eq!(s.nodes[2].id, "n3");
    assert_eq!(s.next_n, 4);
}
