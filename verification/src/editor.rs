//! The editor's state and how each user action changes it. The view keeps
//! what is only about the screen (positions, the pointer while a wire is
//! drawn) and lays the cards out again when `reduce` asks for it.
use vstd::prelude::*;

use crate::color::{color, next_color, palette, palette_index, N_COLORS};
use crate::model::{
    acyclic, add_edge, fresh_available, fresh_id, first_free, has_edge, has_node, id_for, pairs,
    reaches, str_eq, sub_graph, Document, Edge, Graph, Id, Node,
};

verus! {

/// Which circle of a card a wire was started from.
#[derive(Clone, Copy, Debug)]
pub enum WireDir {
    /// Started on the left circle: this card is the dependent.
    FromDep,
    /// Started on the right circle: this card is the prereq.
    FromPre,
}

/// A wire being drawn from the card `source`.
#[derive(Clone, Debug)]
pub struct Wiring {
    pub source: String,
    pub dir: WireDir,
}

/// The editor: the plan, the id counter, the selected card, the wire being
/// drawn and the card whose input gets the focus.
#[derive(Clone, Debug)]
pub struct State {
    pub nodes: Vec<Node>,
    pub edges: Vec<Edge>,
    pub next_n: u32,
    pub selected: Option<String>,
    pub wiring: Option<Wiring>,
    pub focus_id: Option<String>,
}

/// A user action.
#[allow(inconsistent_fields)]
pub enum Msg {
    AddNode,
    SetText { id: String, text: String },
    CycleColor { id: String },
    ToggleDone { id: String },
    StartWire { source: String, dir: WireDir },
    EndWire { target: Option<String> },
    DeleteWire { from: String, to: String },
    DeleteNode { id: String },
    Select { id: Option<String> },
    Load(Document),
}

/// The first position at or after `i` of a card with id `id`.
pub open spec fn index_from(nodes: Seq<Node>, id: Id, i: int) -> Option<int>
    decreases nodes.len() - i,
{
    if i < 0 || i >= nodes.len() {
        None
    } else if nodes[i].id@ == id {
        Some(i)
    } else {
        index_from(nodes, id, i + 1)
    }
}

/// The position of the first card with id `id`.
pub open spec fn node_position(nodes: Seq<Node>, id: Id) -> Option<int> {
    index_from(nodes, id, 0)
}

/// The views of an optional id.
pub open spec fn opt_view(o: Option<String>) -> Option<Id> {
    match o {
        Some(s) => Some(s@),
        None => None,
    }
}

/// The dependency a finished wire stands for, as (prerequisite, dependent).
pub open spec fn wire_edge(source: Id, dir: WireDir, other: Id) -> (Id, Id) {
    match dir {
        WireDir::FromDep => (other, source),
        WireDir::FromPre => (source, other),
    }
}

/// The edges that do not go `from -> to`.
pub open spec fn without_edge(edges: Seq<Edge>, from: Id, to: Id) -> Seq<Edge> {
    edges.filter(|e: Edge| !(e.from@ == from && e.to@ == to))
}

/// The edges that do not touch the card `id`.
pub open spec fn without_node_edges(edges: Seq<Edge>, id: Id) -> Seq<Edge> {
    edges.filter(|e: Edge| e.from@ != id && e.to@ != id)
}

/// The cards whose id is not `id`.
pub open spec fn without_node(nodes: Seq<Node>, id: Id) -> Seq<Node> {
    nodes.filter(|n: Node| n.id@ != id)
}

/// No two cards share an id.
pub open spec fn unique_ids(nodes: Seq<Node>) -> bool {
    forall|i: int, j: int| 0 <= i < j < nodes.len() ==> nodes[i].id@ != nodes[j].id@
}

/// What a new card holds: empty text, the first palette color, not done.
pub open spec fn new_card(n: Node, id: Id) -> bool {
    n.id@ == id && n.text@ == Seq::<char>::empty() && n.color@ == palette(0) && !n.done
}

fn copy_node(n: &Node) -> (r: Node)
    ensures
        r == *n,
{
    Node { id: n.id.clone(), text: n.text.clone(), color: n.color.clone(), done: n.done }
}

fn copy_edge(e: &Edge) -> (r: Edge)
    ensures
        r == *e,
{
    Edge { from: e.from.clone(), to: e.to.clone() }
}

fn copy_opt(o: &Option<String>) -> (r: Option<String>)
    ensures
        r == *o,
{
    match o {
        Some(s) => Some(s.clone()),
        None => None,
    }
}

fn keep_edges_not(edges: &Vec<Edge>, from: &str, to: &str) -> (out: Vec<Edge>)
    ensures
        out@ == without_edge(edges@, from@, to@),
{
    let ghost p = |e: Edge| !(e.from@ == from@ && e.to@ == to@);
    let mut out: Vec<Edge> = Vec::new();
    let mut i: usize = 0;
    while i < edges.len()
        invariant
            i <= edges.len(),
            p == (|e: Edge| !(e.from@ == from@ && e.to@ == to@)),
            out@ == edges@.take(i as int).filter(p),
        decreases edges.len() - i,
    {
        proof {
            reveal_with_fuel(Seq::filter, 1);
            assert(edges@.take(i + 1).drop_last() == edges@.take(i as int));
            assert(edges@.take(i + 1).last() == edges@[i as int]);
        }
        let e = &edges[i];
        if !(str_eq(e.from.as_str(), from) && str_eq(e.to.as_str(), to)) {
            out.push(copy_edge(e));
        }
        i += 1;
    }
    assert(edges@.take(edges.len() as int) == edges@);
    out
}

fn keep_edges_off(edges: &Vec<Edge>, id: &str) -> (out: Vec<Edge>)
    ensures
        out@ == without_node_edges(edges@, id@),
{
    let ghost p = |e: Edge| e.from@ != id@ && e.to@ != id@;
    let mut out: Vec<Edge> = Vec::new();
    let mut i: usize = 0;
    while i < edges.len()
        invariant
            i <= edges.len(),
            p == (|e: Edge| e.from@ != id@ && e.to@ != id@),
            out@ == edges@.take(i as int).filter(p),
        decreases edges.len() - i,
    {
        proof {
            reveal_with_fuel(Seq::filter, 1);
            assert(edges@.take(i + 1).drop_last() == edges@.take(i as int));
            assert(edges@.take(i + 1).last() == edges@[i as int]);
        }
        let e = &edges[i];
        if !str_eq(e.from.as_str(), id) && !str_eq(e.to.as_str(), id) {
            out.push(copy_edge(e));
        }
        i += 1;
    }
    assert(edges@.take(edges.len() as int) == edges@);
    out
}

fn keep_nodes_not(nodes: &Vec<Node>, id: &str) -> (out: Vec<Node>)
    ensures
        out@ == without_node(nodes@, id@),
{
    let ghost p = |n: Node| n.id@ != id@;
    let mut out: Vec<Node> = Vec::new();
    let mut i: usize = 0;
    while i < nodes.len()
        invariant
            i <= nodes.len(),
            p == (|n: Node| n.id@ != id@),
            out@ == nodes@.take(i as int).filter(p),
        decreases nodes.len() - i,
    {
        proof {
            reveal_with_fuel(Seq::filter, 1);
            assert(nodes@.take(i + 1).drop_last() == nodes@.take(i as int));
            assert(nodes@.take(i + 1).last() == nodes@[i as int]);
        }
        let n = &nodes[i];
        if !str_eq(n.id.as_str(), id) {
            out.push(copy_node(n));
        }
        i += 1;
    }
    assert(nodes@.take(nodes.len() as int) == nodes@);
    out
}

/// Every element of `s.filter(p)` is an element of `s`.
pub proof fn lemma_filter_sub<A>(s: Seq<A>, p: spec_fn(A) -> bool)
    ensures
        forall|i: int| 0 <= i < s.filter(p).len() ==> s.contains(#[trigger] s.filter(p)[i]),
    decreases s.len(),
{
    reveal_with_fuel(Seq::filter, 1);
    if s.len() > 0 {
        lemma_filter_sub(s.drop_last(), p);
        assert forall|i: int| 0 <= i < s.filter(p).len() implies s.contains(
            #[trigger] s.filter(p)[i],
        ) by {
            let f = s.drop_last().filter(p);
            if i < f.len() {
                assert(s.filter(p)[i] == f[i]);
                let k = choose|k: int| 0 <= k < s.drop_last().len() && s.drop_last()[k] == f[i];
                assert(s[k] == f[i]);
            } else {
                assert(s.filter(p)[i] == s.last());
                assert(s[s.len() - 1] == s.last());
            }
        }
    }
}

/// Dropping edges from an acyclic list of edges leaves it acyclic.
pub proof fn lemma_filter_keeps_acyclic(edges: Seq<Edge>, p: spec_fn(Edge) -> bool)
    requires
        acyclic(pairs(edges)),
    ensures
        acyclic(pairs(edges.filter(p))),
{
    lemma_filter_sub(edges, p);
    let f = edges.filter(p);
    assert forall|i: int| 0 <= i < pairs(f).len() implies has_edge(
        pairs(edges),
        (#[trigger] pairs(f)[i]).0,
        pairs(f)[i].1,
    ) by {
        assert(edges.contains(f[i]));
        let k = choose|k: int| 0 <= k < edges.len() && edges[k] == f[i];
        assert(pairs(edges)[k] == pairs(f)[i]);
    }
    crate::model::lemma_sub_graph_keeps_acyclic(pairs(f), pairs(edges));
}

/// What `reduce` does with each action: `pre` is the state before, `post`
/// the state after, `relayout` what it returns.
pub open spec fn reduce_post(pre: State, post: State, msg: Msg, relayout: bool) -> bool {
    match msg {
        Msg::AddNode => {
            let k = first_free(pre.nodes@, pre.next_n as nat);
            &&& post.nodes@.len() == pre.nodes@.len() + 1
            &&& post.nodes@.drop_last() == pre.nodes@
            &&& new_card(post.nodes@.last(), id_for(k))
            &&& post.next_n as nat == if k < u32::MAX {
                k + 1
            } else {
                u32::MAX as nat
            }
            &&& opt_view(post.selected) == Some(id_for(k))
            &&& opt_view(post.focus_id) == Some(id_for(k))
            &&& post.edges@ == pre.edges@
            &&& post.wiring == pre.wiring
            &&& relayout
        },
        Msg::SetText { id, text } => {
            &&& post.nodes@ == match node_position(pre.nodes@, id@) {
                Some(i) => pre.nodes@.update(
                    i,
                    (Node {
                        id: pre.nodes@[i].id,
                        text: text,
                        color: pre.nodes@[i].color,
                        done: pre.nodes@[i].done,
                    }),
                ),
                None => pre.nodes@,
            }
            &&& post.edges@ == pre.edges@
            &&& post.next_n == pre.next_n
            &&& post.selected == pre.selected
            &&& post.wiring == pre.wiring
            &&& post.focus_id == pre.focus_id
            &&& !relayout
        },
        Msg::CycleColor { id } => {
            &&& post.nodes@.len() == pre.nodes@.len()
            &&& match node_position(pre.nodes@, id@) {
                Some(i) => {
                    &&& forall|j: int|
                        0 <= j < pre.nodes@.len() && j != i ==> post.nodes@[j]
                            == pre.nodes@[j]
                    &&& post.nodes@[i].id == pre.nodes@[i].id
                    &&& post.nodes@[i].text == pre.nodes@[i].text
                    &&& post.nodes@[i].done == pre.nodes@[i].done
                    &&& post.nodes@[i].color@ == palette(
                        (palette_index(pre.nodes@[i].color@) + 1) % (N_COLORS as int),
                    )
                },
                None => post.nodes@ == pre.nodes@,
            }
            &&& post.edges@ == pre.edges@
            &&& post.next_n == pre.next_n
            &&& post.selected == pre.selected
            &&& post.wiring == pre.wiring
            &&& post.focus_id == pre.focus_id
            &&& !relayout
        },
        Msg::ToggleDone { id } => {
            &&& post.nodes@ == match node_position(pre.nodes@, id@) {
                Some(i) => pre.nodes@.update(
                    i,
                    (Node {
                        id: pre.nodes@[i].id,
                        text: pre.nodes@[i].text,
                        color: pre.nodes@[i].color,
                        done: !pre.nodes@[i].done,
                    }),
                ),
                None => pre.nodes@,
            }
            &&& post.edges@ == pre.edges@
            &&& post.next_n == pre.next_n
            &&& post.selected == pre.selected
            &&& post.wiring == pre.wiring
            &&& post.focus_id == pre.focus_id
            &&& !relayout
        },
        Msg::StartWire { source, dir } => {
            &&& post.wiring == Some(Wiring { source, dir })
            &&& post.nodes@ == pre.nodes@
            &&& post.edges@ == pre.edges@
            &&& post.next_n == pre.next_n
            &&& post.selected == pre.selected
            &&& post.focus_id == pre.focus_id
            &&& !relayout
        },
        Msg::EndWire { target } => {
            &&& post.wiring is None
            &&& post.nodes@ == pre.nodes@
            &&& post.next_n == pre.next_n
            &&& post.selected == pre.selected
            &&& post.focus_id == pre.focus_id
            &&& relayout == (pre.wiring is Some && target is Some)
            &&& match (pre.wiring, target) {
                (Some(w), Some(other)) => {
                    let e = wire_edge(w.source@, w.dir, other@);
                    let g = pairs(pre.edges@);
                    if !has_edge(g, e.0, e.1) && !reaches(g, e.1, e.0) {
                        &&& post.edges@.drop_last() == pre.edges@
                        &&& post.edges@.len() == pre.edges@.len() + 1
                        &&& post.edges@.last().from@ == e.0
                        &&& post.edges@.last().to@ == e.1
                    } else {
                        post.edges@ == pre.edges@
                    }
                },
                _ => post.edges@ == pre.edges@,
            }
        },
        Msg::DeleteWire { from, to } => {
            &&& post.edges@ == without_edge(pre.edges@, from@, to@)
            &&& post.nodes@ == pre.nodes@
            &&& post.next_n == pre.next_n
            &&& post.selected == pre.selected
            &&& post.wiring == pre.wiring
            &&& post.focus_id == pre.focus_id
            &&& relayout
        },
        Msg::DeleteNode { id } => {
            &&& post.nodes@ == without_node(pre.nodes@, id@)
            &&& post.edges@ == without_node_edges(pre.edges@, id@)
            &&& opt_view(post.selected) == if opt_view(pre.selected) == Some(
                id@,
            ) {
                None
            } else {
                opt_view(pre.selected)
            }
            &&& opt_view(post.focus_id) == if opt_view(pre.focus_id) == Some(
                id@,
            ) {
                None
            } else {
                opt_view(pre.focus_id)
            }
            &&& post.next_n == pre.next_n
            &&& post.wiring == pre.wiring
            &&& relayout
        },
        Msg::Select { id } => {
            &&& post.selected == id
            &&& post.nodes@ == pre.nodes@
            &&& post.edges@ == pre.edges@
            &&& post.next_n == pre.next_n
            &&& post.wiring == pre.wiring
            &&& post.focus_id == pre.focus_id
            &&& !relayout
        },
        Msg::Load(doc) => {
            &&& post.nodes@ == doc.nodes@
            &&& post.edges@ == doc.edges@
            &&& post.next_n == pre.next_n
            &&& post.selected is None
            &&& post.wiring is None
            &&& post.focus_id is None
            &&& relayout
        },
    }
}

impl Default for State {
    /// An empty plan; new card ids start at `n1`.
    fn default() -> (s: State)
        ensures
            s.nodes@.len() == 0,
            s.edges@.len() == 0,
            s.next_n == 1,
            s.selected is None,
            s.wiring is None,
            s.focus_id is None,
    {
        State::new()
    }
}

impl State {
    /// An empty plan; new card ids start at `n1`.
    pub fn new() -> (s: State)
        ensures
            s.nodes@.len() == 0,
            s.edges@.len() == 0,
            s.next_n == 1,
            s.selected is None,
            s.wiring is None,
            s.focus_id is None,
    {
        State {
            nodes: Vec::new(),
            edges: Vec::new(),
            next_n: 1,
            selected: None,
            wiring: None,
            focus_id: None,
        }
    }

    /// Where the first card with id `id` stands.
    pub fn node_index(&self, id: &str) -> (r: Option<usize>)
        ensures
            r matches Some(i) ==> node_position(self.nodes@, id@) == Some(i as int) && i
                < self.nodes@.len() && self.nodes@[i as int].id@ == id@,
            r is None ==> node_position(self.nodes@, id@) is None,
    {
        let mut i: usize = 0;
        while i < self.nodes.len()
            invariant
                i <= self.nodes.len(),
                node_position(self.nodes@, id@) == index_from(self.nodes@, id@, i as int),
            decreases self.nodes.len() - i,
        {
            if str_eq(self.nodes[i].id.as_str(), id) {
                return Some(i);
            }
            i += 1;
        }
        None
    }

    /// The card ids, in order: what the layout places.
    pub fn layout_ids(&self) -> (ids: Vec<String>)
        ensures
            ids@.len() == self.nodes@.len(),
            forall|i: int| 0 <= i < ids@.len() ==> #[trigger] ids@[i] == self.nodes@[i].id,
    {
        let mut ids: Vec<String> = Vec::new();
        let mut i: usize = 0;
        while i < self.nodes.len()
            invariant
                i <= self.nodes.len(),
                ids@.len() == i,
                forall|k: int| 0 <= k < i ==> #[trigger] ids@[k] == self.nodes@[k].id,
            decreases self.nodes.len() - i,
        {
            ids.push(self.nodes[i].id.clone());
            i += 1;
        }
        ids
    }

    /// The dependencies as (prerequisite, dependent) pairs: what the layout orders.
    pub fn layout_edges(&self) -> (es: Vec<(String, String)>)
        ensures
            es@.len() == self.edges@.len(),
            forall|i: int|
                0 <= i < es@.len() ==> (#[trigger] es@[i]).0 == self.edges@[i].from && es@[i].1
                    == self.edges@[i].to,
    {
        let mut es: Vec<(String, String)> = Vec::new();
        let mut i: usize = 0;
        while i < self.edges.len()
            invariant
                i <= self.edges.len(),
                es@.len() == i,
                forall|k: int|
                    0 <= k < i ==> (#[trigger] es@[k]).0 == self.edges@[k].from && es@[k].1
                        == self.edges@[k].to,
            decreases self.edges.len() - i,
        {
            es.push((self.edges[i].from.clone(), self.edges[i].to.clone()));
            i += 1;
        }
        es
    }

    /// Applies a user action. Returns whether the cards must be laid out again.
    pub fn reduce(&mut self, msg: Msg) -> (relayout: bool)
        requires
            msg is AddNode ==> fresh_available(old(self).nodes@, old(self).next_n),
        ensures
            reduce_post(*old(self), *final(self), msg, relayout),
            // The dependency graph stays a DAG under every action (a loaded
            // document must bring a DAG of its own).
            acyclic(pairs(old(self).edges@)) && (msg matches Msg::Load(doc) ==> acyclic(
                pairs(doc.edges@),
            )) ==> acyclic(pairs(final(self).edges@)),
            // No dependency is ever there twice (a loaded document must bring
            // distinct edges of its own).
            pairs(old(self).edges@).no_duplicates() && (msg matches Msg::Load(doc) ==> pairs(
                doc.edges@,
            ).no_duplicates()) ==> pairs(final(self).edges@).no_duplicates(),
            // Card ids stay distinct unless a document brings repeated ones.
            unique_ids(old(self).nodes@) && (msg matches Msg::Load(doc) ==> unique_ids(doc.nodes@))
                ==> unique_ids(final(self).nodes@),
    {
        let ghost before_nodes = self.nodes@;
        let ghost before_edges = self.edges@;
        let ghost m = msg;
        match msg {
            Msg::AddNode => {
                let id = fresh_id(&mut self.next_n, self.nodes.as_slice());
                let node = Node {
                    id: id.clone(),
                    text: String::new(),
                    color: String::from_str(color(0)),
                    done: false,
                };
                self.nodes.push(node);
                self.selected = Some(id.clone());
                self.focus_id = Some(id);
                proof {
                    assert(self.nodes@.drop_last() == before_nodes);
                    assert forall|i: int, j: int|
                        0 <= i < j < self.nodes@.len() && unique_ids(before_nodes) implies self.nodes@[i].id@
                        != self.nodes@[j].id@ by {
                        if j == before_nodes.len() {
                            assert(self.nodes@[i] == before_nodes[i]);
                        } else {
                            assert(self.nodes@[i] == before_nodes[i]);
                            assert(self.nodes@[j] == before_nodes[j]);
                        }
                    }
                }
                assert(reduce_post(*old(self), *self, m, true));
                true
            },
            Msg::SetText { id, text } => {
                if let Some(i) = self.node_index(id.as_str()) {
                    let n = Node {
                        id: self.nodes[i].id.clone(),
                        text,
                        color: self.nodes[i].color.clone(),
                        done: self.nodes[i].done,
                    };
                    self.nodes.set(i, n);
                    proof {
                        assert forall|a: int, b: int|
                            0 <= a < b < self.nodes@.len() && unique_ids(before_nodes) implies self.nodes@[a].id@
                            != self.nodes@[b].id@ by {
                            assert(self.nodes@[a].id == before_nodes[a].id);
                            assert(self.nodes@[b].id == before_nodes[b].id);
                        }
                    }
                }
                assert(reduce_post(*old(self), *self, m, false));
                false
            },
            Msg::CycleColor { id } => {
                if let Some(i) = self.node_index(id.as_str()) {
                    let c = next_color(self.nodes[i].color.as_str());
                    let n = Node {
                        id: self.nodes[i].id.clone(),
                        text: self.nodes[i].text.clone(),
                        color: String::from_str(c),
                        done: self.nodes[i].done,
                    };
                    self.nodes.set(i, n);
                    proof {
                        assert forall|a: int, b: int|
                            0 <= a < b < self.nodes@.len() && unique_ids(before_nodes) implies self.nodes@[a].id@
                            != self.nodes@[b].id@ by {
                            assert(self.nodes@[a].id == before_nodes[a].id);
                            assert(self.nodes@[b].id == before_nodes[b].id);
                        }
                    }
                }
                assert(reduce_post(*old(self), *self, m, false));
                false
            },
            Msg::ToggleDone { id } => {
                if let Some(i) = self.node_index(id.as_str()) {
                    let n = Node {
                        id: self.nodes[i].id.clone(),
                        text: self.nodes[i].text.clone(),
                        color: self.nodes[i].color.clone(),
                        done: !self.nodes[i].done,
                    };
                    self.nodes.set(i, n);
                    proof {
                        assert forall|a: int, b: int|
                            0 <= a < b < self.nodes@.len() && unique_ids(before_nodes) implies self.nodes@[a].id@
                            != self.nodes@[b].id@ by {
                            assert(self.nodes@[a].id == before_nodes[a].id);
                            assert(self.nodes@[b].id == before_nodes[b].id);
                        }
                    }
                }
                assert(reduce_post(*old(self), *self, m, false));
                false
            },
            Msg::StartWire { source, dir } => {
                self.wiring = Some(Wiring { source, dir });
                assert(reduce_post(*old(self), *self, m, false));
                false
            },
            Msg::EndWire { target } => {
                let w = self.wiring.take();
                match w {
                    Some(w) => match target {
                        Some(other) => {
                            let (from, to) = match w.dir {
                                WireDir::FromDep => (other, w.source),
                                WireDir::FromPre => (w.source, other),
                            };
                            let ghost e = wire_edge(w.source@, w.dir, other@);
                            assert(from@ == e.0 && to@ == e.1);
                            let ghost fv = from;
                            let ghost tv = to;
                            let added = add_edge(&mut self.edges, from, to);
                            proof {
                                if added {
                                    assert(self.edges@ == before_edges.push(Edge { from: fv, to: tv }));
                                    assert(self.edges@.drop_last() == before_edges);
                                }
                            }
                            assert(reduce_post(*old(self), *self, m, true));
                            true
                        },
                        None => {
                            assert(reduce_post(*old(self), *self, m, false));
                            false
                        },
                    },
                    None => {
                        assert(reduce_post(*old(self), *self, m, false));
                        false
                    },
                }
            },
            Msg::DeleteWire { from, to } => {
                let kept = keep_edges_not(&self.edges, from.as_str(), to.as_str());
                self.edges = kept;
                proof {
                    if acyclic(pairs(before_edges)) {
                        lemma_filter_keeps_acyclic(
                            before_edges,
                            |e: Edge| !(e.from@ == from@ && e.to@ == to@),
                        );
                    }
                    if pairs(before_edges).no_duplicates() {
                        lemma_filter_keeps_distinct(
                            before_edges,
                            |e: Edge| !(e.from@ == from@ && e.to@ == to@),
                        );
                    }
                }
                assert(reduce_post(*old(self), *self, m, true));
                true
            },
            Msg::DeleteNode { id } => {
                let kept_nodes = keep_nodes_not(&self.nodes, id.as_str());
                let kept_edges = keep_edges_off(&self.edges, id.as_str());
                self.nodes = kept_nodes;
                self.edges = kept_edges;
                let drop_sel = match &self.selected {
                    Some(s) => str_eq(s.as_str(), id.as_str()),
                    None => false,
                };
                if drop_sel {
                    self.selected = None;
                }
                let drop_focus = match &self.focus_id {
                    Some(s) => str_eq(s.as_str(), id.as_str()),
                    None => false,
                };
                if drop_focus {
                    self.focus_id = None;
                }
                proof {
                    if acyclic(pairs(before_edges)) {
                        lemma_filter_keeps_acyclic(
                            before_edges,
                            |e: Edge| e.from@ != id@ && e.to@ != id@,
                        );
                    }
                    if pairs(before_edges).no_duplicates() {
                        lemma_filter_keeps_distinct(
                            before_edges,
                            |e: Edge| e.from@ != id@ && e.to@ != id@,
                        );
                    }
                    if unique_ids(before_nodes) {
                        lemma_filter_keeps_unique(before_nodes, |n: Node| n.id@ != id@);
                    }
                }
                assert(reduce_post(*old(self), *self, m, true));
                true
            },
            Msg::Select { id } => {
                self.selected = id;
                assert(reduce_post(*old(self), *self, m, false));
                false
            },
            Msg::Load(doc) => {
                self.nodes = doc.nodes;
                self.edges = doc.edges;
                self.selected = None;
                self.wiring = None;
                self.focus_id = None;
                true
            },
        }
    }
}

/// Dropping edges keeps the remaining ones distinct.
pub proof fn lemma_filter_keeps_distinct(edges: Seq<Edge>, p: spec_fn(Edge) -> bool)
    requires
        pairs(edges).no_duplicates(),
    ensures
        pairs(edges.filter(p)).no_duplicates(),
    decreases edges.len(),
{
    reveal_with_fuel(Seq::filter, 1);
    if edges.len() > 0 {
        let init = edges.drop_last();
        assert(pairs(init) =~= pairs(edges).drop_last());
        assert(pairs(init).no_duplicates()) by {
            assert forall|i: int, j: int|
                0 <= i < pairs(init).len() && 0 <= j < pairs(init).len() && i != j implies pairs(init)[i]
                != pairs(init)[j] by {
                assert(pairs(init)[i] == pairs(edges)[i] && pairs(init)[j] == pairs(edges)[j]);
            }
        }
        lemma_filter_keeps_distinct(init, p);
        lemma_filter_sub(init, p);
        let f = init.filter(p);
        if p(edges.last()) {
            let h = f.push(edges.last());
            assert(pairs(h) =~= pairs(f).push((edges.last().from@, edges.last().to@)));
            assert forall|i: int, j: int|
                0 <= i < pairs(h).len() && 0 <= j < pairs(h).len() && i != j implies pairs(h)[i] != pairs(h)[j] by {
                if i == f.len() || j == f.len() {
                    let o = if i == f.len() { j } else { i };
                    assert(init.contains(f[o]));
                    let k = choose|k: int| 0 <= k < init.len() && init[k] == f[o];
                    assert(pairs(edges)[k] == pairs(h)[o]);
                    assert(pairs(edges)[edges.len() - 1] == pairs(h)[f.len() as int]);
                } else {
                    assert(pairs(h)[i] == pairs(f)[i] && pairs(h)[j] == pairs(f)[j]);
                }
            }
        }
    }
}

/// Dropping cards keeps their ids distinct.
pub proof fn lemma_filter_keeps_unique(nodes: Seq<Node>, p: spec_fn(Node) -> bool)
    requires
        unique_ids(nodes),
    ensures
        unique_ids(nodes.filter(p)),
    decreases nodes.len(),
{
    reveal_with_fuel(Seq::filter, 1);
    if nodes.len() > 0 {
        let init = nodes.drop_last();
        assert(unique_ids(init));
        lemma_filter_keeps_unique(init, p);
        lemma_filter_sub(init, p);
        let f = init.filter(p);
        if p(nodes.last()) {
            let g = f.push(nodes.last());
            assert forall|i: int, j: int| 0 <= i < j < g.len() implies g[i].id@ != g[j].id@ by {
                if j == f.len() {
                    assert(init.contains(f[i]));
                    let k = choose|k: int| 0 <= k < init.len() && init[k] == f[i];
                    assert(nodes[k] == f[i]);
                    assert(nodes[nodes.len() - 1] == nodes.last());
                } else {
                    assert(g[i] == f[i] && g[j] == f[j]);
                }
            }
        }
    }
}

/// Where the search for `id` from `k` stops: at a card with that id, not
/// before `k`.
proof fn lemma_index_from_found(nodes: Seq<Node>, id: Id, k: int)
    ensures
        index_from(nodes, id, k) matches Some(i) ==> k <= i < nodes.len() && nodes[i].id@ == id,
    decreases nodes.len() - k,
{
    if 0 <= k < nodes.len() && nodes[k].id@ != id {
        lemma_index_from_found(nodes, id, k + 1);
    }
}

/// Changing a card but not its id moves no search for an id.
proof fn lemma_index_from_same_ids(nodes: Seq<Node>, i: int, n: Node, id: Id, k: int)
    requires
        0 <= i < nodes.len(),
        n.id == nodes[i].id,
    ensures
        index_from(nodes.update(i, n), id, k) == index_from(nodes, id, k),
    decreases nodes.len() - k,
{
    if 0 <= k < nodes.len() {
        assert(nodes.update(i, n)[k].id == nodes[k].id);
        lemma_index_from_same_ids(nodes, i, n, id, k + 1);
    }
}

/// Marking a card done flips its flag and nothing else, so doing it twice
/// gives the cards back as they were.
pub proof fn lemma_toggle_done_flips(s0: State, s1: State, s2: State, id: String, r1: bool, r2: bool)
    requires
        reduce_post(s0, s1, Msg::ToggleDone { id: id }, r1),
        reduce_post(s1, s2, Msg::ToggleDone { id: id }, r2),
    ensures
        s1.nodes@.len() == s0.nodes@.len(),
        forall|j: int|
            0 <= j < s0.nodes@.len() && (#[trigger] s0.nodes@[j]).id@ == id@ && node_position(
                s0.nodes@,
                id@,
            ) == Some(j) ==> s1.nodes@[j].done != s0.nodes@[j].done && s1.nodes@[j].id
                == s0.nodes@[j].id && s1.nodes@[j].text == s0.nodes@[j].text && s1.nodes@[j].color
                == s0.nodes@[j].color,
        forall|j: int|
            0 <= j < s0.nodes@.len() && node_position(s0.nodes@, id@) != Some(j) ==> s1.nodes@[j]
                == #[trigger] s0.nodes@[j],
        s2.nodes@ == s0.nodes@,
        s2.edges@ == s0.edges@,
{
    let ns = s0.nodes@;
    lemma_index_from_found(ns, id@, 0);
    match node_position(ns, id@) {
        Some(i) => {
            let n = Node {
                id: ns[i].id,
                text: ns[i].text,
                color: ns[i].color,
                done: !ns[i].done,
            };
            assert(s1.nodes@ == ns.update(i, n));
            lemma_index_from_same_ids(ns, i, n, id@, 0);
            assert(node_position(s1.nodes@, id@) == Some(i));
            assert(s2.nodes@ == s1.nodes@.update(i, ns[i]));
            assert(s2.nodes@ =~= ns);
        },
        None => {},
    }
}

} // verus!
