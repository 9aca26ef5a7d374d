//! The plan document: cards (`Node`), dependencies (`Edge`) and the rules
//! that keep the dependency graph a DAG.
use vstd::prelude::*;

use crate::text::{push_char, push_decimal};

verus! {

/// A card of the plan.
#[derive(Clone, Debug, PartialEq)]
pub struct Node {
    pub id: String,
    pub text: String,
    pub color: String,
    pub done: bool,
}

/// `from` is a prerequisite of `to`.
#[derive(Clone, Debug, PartialEq)]
pub struct Edge {
    pub from: String,
    pub to: String,
}

/// A whole plan, as it is saved.
#[derive(Clone, Debug, PartialEq)]
pub struct Document {
    pub vanplan: u32,
    pub nodes: Vec<Node>,
    pub edges: Vec<Edge>,
}

/// An identifier, as characters.
pub type Id = Seq<char>;

/// The dependency graph as a sequence of (prerequisite, dependent) pairs.
pub type Graph = Seq<(Id, Id)>;

/// The graph that a list of edges stands for.
pub open spec fn pairs(edges: Seq<Edge>) -> Graph {
    edges.map_values(|e: Edge| (e.from@, e.to@))
}

/// `a -> b` is one of the edges of `g`.
pub open spec fn has_edge(g: Graph, a: Id, b: Id) -> bool {
    exists|i: int| 0 <= i < g.len() && #[trigger] g[i] == (a, b)
}

/// `p` is a walk along the edges of `g` (a single vertex is a walk).
pub open spec fn is_path(g: Graph, p: Seq<Id>) -> bool {
    &&& p.len() >= 1
    &&& forall|i: int| 0 <= i < p.len() - 1 ==> has_edge(g, #[trigger] p[i], p[i + 1])
}

/// `b` can be reached from `a` by following edges of `g` (zero or more).
pub open spec fn reaches(g: Graph, a: Id, b: Id) -> bool {
    exists|p: Seq<Id>| is_path(g, p) && p[0] == a && #[trigger] p.last() == b
}

/// No edge of `g` lies on a cycle.
pub open spec fn acyclic(g: Graph) -> bool {
    forall|i: int| 0 <= i < g.len() ==> !reaches(g, (#[trigger] g[i]).1, g[i].0)
}

/// Every edge of `g` is an edge of `h`.
pub open spec fn sub_graph(g: Graph, h: Graph) -> bool {
    forall|i: int| 0 <= i < g.len() ==> has_edge(h, (#[trigger] g[i]).0, g[i].1)
}

pub proof fn lemma_reaches_self(g: Graph, a: Id)
    ensures
        reaches(g, a, a),
{
    let p = seq![a];
    assert(is_path(g, p));
    assert(p.last() == a);
}

pub proof fn lemma_reaches_step(g: Graph, a: Id, m: Id, b: Id)
    requires
        reaches(g, a, m),
        has_edge(g, m, b),
    ensures
        reaches(g, a, b),
{
    let p = choose|p: Seq<Id>| is_path(g, p) && p[0] == a && #[trigger] p.last() == m;
    let q = p.push(b);
    assert forall|i: int| 0 <= i < q.len() - 1 implies has_edge(g, #[trigger] q[i], q[i + 1]) by {
        if i < p.len() - 1 {
            assert(q[i] == p[i] && q[i + 1] == p[i + 1]);
        }
    }
    assert(q.last() == b);
}

proof fn lemma_path_trans(g: Graph, p: Seq<Id>, q: Seq<Id>)
    requires
        is_path(g, p),
        is_path(g, q),
        p.last() == q[0],
    ensures
        reaches(g, p[0], q.last()),
    decreases q.len(),
{
    if q.len() == 1 {
        assert(reaches(g, p[0], p.last()));
    } else {
        let q0 = q.drop_last();
        assert(is_path(g, q0)) by {
            assert forall|i: int| 0 <= i < q0.len() - 1 implies has_edge(
                g,
                #[trigger] q0[i],
                q0[i + 1],
            ) by {
                assert(q0[i] == q[i] && q0[i + 1] == q[i + 1]);
            }
        }
        lemma_path_trans(g, p, q0);
        assert(has_edge(g, q[q.len() - 2], q[q.len() - 1]));
        lemma_reaches_step(g, p[0], q0.last(), q.last());
    }
}

pub proof fn lemma_reaches_trans(g: Graph, a: Id, b: Id, c: Id)
    requires
        reaches(g, a, b),
        reaches(g, b, c),
    ensures
        reaches(g, a, c),
{
    let p = choose|p: Seq<Id>| is_path(g, p) && p[0] == a && #[trigger] p.last() == b;
    let q = choose|q: Seq<Id>| is_path(g, q) && q[0] == b && #[trigger] q.last() == c;
    lemma_path_trans(g, p, q);
}

proof fn lemma_path_sub_graph(g: Graph, h: Graph, p: Seq<Id>)
    requires
        is_path(g, p),
        sub_graph(g, h),
    ensures
        is_path(h, p),
{
    assert forall|i: int| 0 <= i < p.len() - 1 implies has_edge(h, #[trigger] p[i], p[i + 1]) by {
        assert(has_edge(g, p[i], p[i + 1]));
        let k = choose|k: int| 0 <= k < g.len() && #[trigger] g[k] == (p[i], p[i + 1]);
        assert(has_edge(h, g[k].0, g[k].1));
    }
}

pub proof fn lemma_reaches_sub_graph(g: Graph, h: Graph, a: Id, b: Id)
    requires
        reaches(g, a, b),
        sub_graph(g, h),
    ensures
        reaches(h, a, b),
{
    let p = choose|p: Seq<Id>| is_path(g, p) && p[0] == a && #[trigger] p.last() == b;
    lemma_path_sub_graph(g, h, p);
}

/// A walk in `g` with one more edge `e` either avoids `e` or passes through it.
proof fn lemma_split_path(g: Graph, e: (Id, Id), p: Seq<Id>)
    requires
        is_path(g.push(e), p),
    ensures
        reaches(g, p[0], p.last()) || (reaches(g, p[0], e.0) && reaches(g, e.1, p.last())),
    decreases p.len(),
{
    let g2 = g.push(e);
    if p.len() == 1 {
        lemma_reaches_self(g, p[0]);
    } else {
        let q = p.drop_last();
        assert(is_path(g2, q)) by {
            assert forall|i: int| 0 <= i < q.len() - 1 implies has_edge(
                g2,
                #[trigger] q[i],
                q[i + 1],
            ) by {
                assert(q[i] == p[i] && q[i + 1] == p[i + 1]);
            }
        }
        lemma_split_path(g, e, q);
        let m = q.last();
        let y = p.last();
        assert(m == p[p.len() - 2]);
        assert(has_edge(g2, m, y));
        let k = choose|k: int| 0 <= k < g2.len() && #[trigger] g2[k] == (m, y);
        if k < g.len() {
            assert(g[k] == (m, y));
            assert(has_edge(g, m, y));
            if reaches(g, p[0], m) {
                lemma_reaches_step(g, p[0], m, y);
            } else {
                lemma_reaches_step(g, e.1, m, y);
            }
        } else {
            assert(m == e.0 && y == e.1);
            lemma_reaches_self(g, e.1);
            if reaches(g, p[0], m) {
            } else {
            }
        }
    }
}

/// Adding the edge `from -> to` to an acyclic graph keeps it acyclic when
/// `from` cannot already be reached from `to`.
pub proof fn lemma_push_keeps_acyclic(g: Graph, from: Id, to: Id)
    requires
        acyclic(g),
        !reaches(g, to, from),
    ensures
        acyclic(g.push((from, to))),
{
    let g2 = g.push((from, to));
    assert forall|i: int| 0 <= i < g2.len() implies !reaches(g2, (#[trigger] g2[i]).1, g2[i].0) by {
        let a = g2[i].0;
        let b = g2[i].1;
        if reaches(g2, b, a) {
            let p = choose|p: Seq<Id>| is_path(g2, p) && p[0] == b && #[trigger] p.last() == a;
            lemma_split_path(g, (from, to), p);
            if i < g.len() {
                assert(g[i] == (a, b));
                assert(!reaches(g, g[i].1, g[i].0));
                if reaches(g, b, from) && reaches(g, to, a) {
                    assert(has_edge(g, a, b));
                    lemma_reaches_step(g, to, a, b);
                    lemma_reaches_trans(g, to, b, from);
                }
            } else {
                assert(a == from && b == to);
            }
        }
    }
}

/// Every graph whose edges are all edges of an acyclic graph is acyclic.
pub proof fn lemma_sub_graph_keeps_acyclic(g: Graph, h: Graph)
    requires
        acyclic(h),
        sub_graph(g, h),
    ensures
        acyclic(g),
{
    assert forall|i: int| 0 <= i < g.len() implies !reaches(g, (#[trigger] g[i]).1, g[i].0) by {
        if reaches(g, g[i].1, g[i].0) {
            lemma_reaches_sub_graph(g, h, g[i].1, g[i].0);
            assert(has_edge(h, g[i].0, g[i].1));
            let k = choose|k: int| 0 <= k < h.len() && #[trigger] h[k] == (g[i].0, g[i].1);
            assert(!reaches(h, h[k].1, h[k].0));
        }
    }
}

/// String equality: equal exactly when the characters are.
pub(crate) fn str_eq(a: &str, b: &str) -> (r: bool)
    ensures
        r == (a@ == b@),
{
    a.to_owned() == b.to_owned()
}

fn contains_str(v: &Vec<&str>, s: &str) -> (r: bool)
    ensures
        r == (exists|i: int| 0 <= i < v.len() && (#[trigger] v@[i])@ == s@),
{
    let mut i: usize = 0;
    while i < v.len()
        invariant
            i <= v.len(),
            forall|j: int| 0 <= j < i ==> (#[trigger] v@[j])@ != s@,
        decreases v.len() - i,
    {
        if str_eq(v[i], s) {
            return true;
        }
        i += 1;
    }
    false
}

/// The views of a sequence of `&str`.
pub open spec fn views(v: Seq<&str>) -> Seq<Id> {
    v.map_values(|s: &str| s@)
}

/// The ids that edges of `g` lead to, and `start`.
spec fn targets(g: Graph, start: Id) -> Set<Id> {
    g.map_values(|p: (Id, Id)| p.1).to_set().insert(start)
}

proof fn lemma_targets_len(g: Graph, start: Id)
    ensures
        targets(g, start).finite(),
        targets(g, start).len() <= g.len() + 1,
{
    let t = g.map_values(|p: (Id, Id)| p.1);
    t.lemma_cardinality_of_set();
    vstd::seq_lib::seq_to_set_is_finite(t);
}

proof fn lemma_seen_bound(g: Graph, start: Id, sv: Seq<Id>)
    requires
        sv.no_duplicates(),
        forall|i: int| 0 <= i < sv.len() ==> targets(g, start).contains(#[trigger] sv[i]),
    ensures
        sv.len() <= g.len() + 1,
{
    lemma_targets_len(g, start);
    sv.unique_seq_to_set();
    assert(sv.to_set().subset_of(targets(g, start)));
    vstd::set_lib::lemma_len_subset(sv.to_set(), targets(g, start));
}

proof fn lemma_closed_walk(g: Graph, sv: Seq<Id>, p: Seq<Id>)
    requires
        is_path(g, p),
        sv.contains(p[0]),
        forall|k: int|
            0 <= k < g.len() && sv.contains(#[trigger] g[k].0) ==> sv.contains(g[k].1),
    ensures
        sv.contains(p.last()),
    decreases p.len(),
{
    if p.len() > 1 {
        let q = p.drop_last();
        assert(is_path(g, q)) by {
            assert forall|i: int| 0 <= i < q.len() - 1 implies has_edge(
                g,
                #[trigger] q[i],
                q[i + 1],
            ) by {
                assert(q[i] == p[i] && q[i + 1] == p[i + 1]);
            }
        }
        lemma_closed_walk(g, sv, q);
        assert(has_edge(g, p[p.len() - 2], p.last()));
        let k = choose|k: int| 0 <= k < g.len() && #[trigger] g[k] == (p[p.len() - 2], p.last());
        assert(sv.contains(g[k].0));
    }
}

/// Adding `from` (prereq) → `to` (dependent) cycles if `to` can already reach `from`.
pub fn would_cycle(edges: &[Edge], from: &str, to: &str) -> (r: bool)
    ensures
        r == reaches(pairs(edges@), to@, from@),
{
    let ghost g = pairs(edges@);
    if str_eq(from, to) {
        proof {
            lemma_reaches_self(g, to@);
        }
        return true;
    }
    let mut seen: Vec<&str> = Vec::new();
    seen.push(to);
    let mut head: usize = 0;
    proof {
        lemma_reaches_self(g, to@);
        assert(views(seen@) == seq![to@]);
    }
    while head < seen.len()
        invariant
            g == pairs(edges@),
            head <= seen.len(),
            seen.len() >= 1,
            seen@[0]@ == to@,
            views(seen@).no_duplicates(),
            forall|i: int| 0 <= i < seen.len() ==> targets(g, to@).contains(#[trigger] views(seen@)[i]),
            forall|i: int| 0 <= i < seen.len() ==> reaches(g, to@, #[trigger] views(seen@)[i]),
            forall|i: int| 0 <= i < head ==> (#[trigger] seen@[i])@ != from@,
            forall|k: int|
                0 <= k < g.len() && views(seen@).take(head as int).contains(#[trigger] g[k].0)
                    ==> views(seen@).contains(g[k].1),
        decreases g.len() + 1 - head,
    {
        proof {
            lemma_seen_bound(g, to@, views(seen@));
        }
        let cur: &str = seen[head];
        if str_eq(cur, from) {
            assert(views(seen@)[head as int] == cur@);
            return true;
        }
        let ghost before = seen@;
        let mut j: usize = 0;
        while j < edges.len()
            invariant
                g == pairs(edges@),
                head < seen.len(),
                before.len() <= seen.len(),
                forall|i: int| 0 <= i < before.len() ==> seen@[i] == before[i],
                cur == seen@[head as int],
                j <= edges.len(),
                views(seen@).no_duplicates(),
                forall|i: int| 0 <= i < seen.len() ==> targets(g, to@).contains(#[trigger] views(seen@)[i]),
                forall|i: int| 0 <= i < seen.len() ==> reaches(g, to@, #[trigger] views(seen@)[i]),
                forall|k: int| 0 <= k < j && g[k].0 == cur@ ==> views(seen@).contains(#[trigger] g[k].1),
                forall|k: int|
                    0 <= k < g.len() && views(before).take(head as int).contains(#[trigger] g[k].0)
                        ==> views(before).contains(g[k].1),
            decreases edges.len() - j,
        {
            let e = &edges[j];
            assert(g[j as int] == (e.from@, e.to@));
            if str_eq(e.from.as_str(), cur) {
                let t: &str = e.to.as_str();
                if !contains_str(&seen, t) {
                    let ghost old_views = views(seen@);
                    seen.push(t);
                    proof {
                        assert(views(seen@) == old_views.push(t@));
                        assert(reaches(g, to@, old_views[head as int]));
                        assert(has_edge(g, cur@, t@));
                        lemma_reaches_step(g, to@, cur@, t@);
                        assert(g.map_values(|p: (Id, Id)| p.1)[j as int] == t@);
                        assert(targets(g, to@).contains(t@));
                        assert forall|k: int| 0 <= k <= j && g[k].0 == cur@ implies views(
                            seen@,
                        ).contains(#[trigger] g[k].1) by {
                            if k < j {
                                let w = choose|w: int|
                                    0 <= w < old_views.len() && #[trigger] old_views[w] == g[k].1;
                                assert(views(seen@)[w] == g[k].1);
                            } else {
                                assert(views(seen@)[old_views.len() as int] == t@);
                            }
                        }
                    }
                } else {
                    proof {
                        let w = choose|w: int| 0 <= w < seen.len() && (#[trigger] seen@[w])@ == t@;
                        assert(views(seen@)[w] == t@);
                    }
                }
            }
            j += 1;
        }
        proof {
            assert forall|k: int|
                0 <= k < g.len() && views(seen@).take(head + 1).contains(#[trigger] g[k].0)
                    implies views(seen@).contains(g[k].1) by {
                let w = choose|w: int| 0 <= w < head + 1 && #[trigger] views(seen@).take(head + 1)[w] == g[k].0;
                if w < head {
                    assert(views(before).take(head as int)[w] == g[k].0);
                    assert(views(before).take(head as int).contains(g[k].0));
                    let w2 = choose|w2: int| 0 <= w2 < before.len() && #[trigger] views(before)[w2] == g[k].1;
                    assert(views(seen@)[w2] == g[k].1);
                } else {
                    assert(g[k].0 == cur@);
                }
            }
        }
        assert forall|i: int| 0 <= i < head + 1 implies (#[trigger] seen@[i])@ != from@ by {
            if i < head {
                assert(seen@[i] == before[i]);
            }
        }
        head += 1;
    }
    proof {
        assert(views(seen@).take(head as int) == views(seen@));
        if reaches(g, to@, from@) {
            let p = choose|p: Seq<Id>| is_path(g, p) && p[0] == to@ && #[trigger] p.last() == from@;
            assert(views(seen@)[0] == to@);
            lemma_closed_walk(g, views(seen@), p);
            let w = choose|w: int| 0 <= w < seen.len() && #[trigger] views(seen@)[w] == from@;
            assert(seen@[w]@ == from@);
        }
    }
    false
}


/// Whether `from -> to` is already an edge.
pub fn edge_exists(edges: &[Edge], from: &str, to: &str) -> (r: bool)
    ensures
        r == has_edge(pairs(edges@), from@, to@),
{
    let ghost g = pairs(edges@);
    let mut i: usize = 0;
    while i < edges.len()
        invariant
            g == pairs(edges@),
            i <= edges.len(),
            forall|k: int| 0 <= k < i ==> #[trigger] g[k] != (from@, to@),
        decreases edges.len() - i,
    {
        assert(g[i as int] == (edges@[i as int].from@, edges@[i as int].to@));
        if str_eq(edges[i].from.as_str(), from) && str_eq(edges[i].to.as_str(), to) {
            return true;
        }
        i += 1;
    }
    false
}

proof fn lemma_pairs_push(edges: Seq<Edge>, e: Edge)
    ensures
        pairs(edges.push(e)) == pairs(edges).push((e.from@, e.to@)),
{
    assert(pairs(edges.push(e)) =~= pairs(edges).push((e.from@, e.to@)));
}

/// Adds the dependency `from -> to` unless it is already there or would close a cycle.
/// Returns whether it was added. An acyclic list of edges stays acyclic.
pub fn add_edge(edges: &mut Vec<Edge>, from: String, to: String) -> (added: bool)
    ensures
        added == (!has_edge(pairs(old(edges)@), from@, to@) && !reaches(
            pairs(old(edges)@),
            to@,
            from@,
        )),
        added ==> final(edges)@ == old(edges)@.push(Edge { from: from, to: to }),
        !added ==> final(edges)@ == old(edges)@,
        acyclic(pairs(old(edges)@)) ==> acyclic(pairs(final(edges)@)),
        pairs(old(edges)@).no_duplicates() ==> pairs(final(edges)@).no_duplicates(),
{
    if edge_exists(edges.as_slice(), from.as_str(), to.as_str()) {
        return false;
    }
    if would_cycle(edges.as_slice(), from.as_str(), to.as_str()) {
        return false;
    }
    let ghost before = edges@;
    let e = Edge { from, to };
    let ghost ev = e;
    edges.push(e);
    proof {
        lemma_pairs_push(before, ev);
        if acyclic(pairs(before)) {
            lemma_push_keeps_acyclic(pairs(before), ev.from@, ev.to@);
        }
        let g = pairs(before);
        let g2 = pairs(edges@);
        if g.no_duplicates() {
            assert forall|i: int, j: int| 0 <= i < g2.len() && 0 <= j < g2.len() && i != j implies g2[i] != g2[j] by {
                if i == g.len() {
                    assert(g2[j] == g[j]);
                } else if j == g.len() {
                    assert(g2[i] == g[i]);
                } else {
                    assert(g2[i] == g[i] && g2[j] == g[j]);
                }
            }
        }
    }
    true
}

/// The id `n<k>`.
pub open spec fn id_for(k: nat) -> Id {
    seq!['n'] + crate::text::decimal(k)
}

/// Some node of `nodes` has the id `id`.
pub open spec fn has_node(nodes: Seq<Node>, id: Id) -> bool {
    exists|i: int| 0 <= i < nodes.len() && (#[trigger] nodes[i]).id@ == id
}

/// Some `n<k>` with `n <= k <= u32::MAX` is not yet a node id.
pub open spec fn fresh_available(nodes: Seq<Node>, n: u32) -> bool {
    exists|k: u32| n <= k && !has_node(nodes, #[trigger] id_for(k as nat))
}

/// The least `k >= n` (up to `u32::MAX`) whose `n<k>` is free, or `u32::MAX`.
pub open spec fn first_free(nodes: Seq<Node>, n: nat) -> nat
    decreases u32::MAX - n,
{
    if n >= u32::MAX || !has_node(nodes, id_for(n)) {
        n
    } else {
        first_free(nodes, n + 1)
    }
}

fn node_with_id(nodes: &[Node], id: &str) -> (r: bool)
    ensures
        r == has_node(nodes@, id@),
{
    let mut i: usize = 0;
    while i < nodes.len()
        invariant
            i <= nodes.len(),
            forall|k: int| 0 <= k < i ==> (#[trigger] nodes@[k]).id@ != id@,
        decreases nodes.len() - i,
    {
        if str_eq(nodes[i].id.as_str(), id) {
            return true;
        }
        i += 1;
    }
    false
}

proof fn lemma_first_free_step(nodes: Seq<Node>, n: nat)
    requires
        n < u32::MAX,
        has_node(nodes, id_for(n)),
    ensures
        first_free(nodes, n) == first_free(nodes, n + 1),
{
}

proof fn lemma_first_free_bounds(nodes: Seq<Node>, n: nat)
    requires
        n <= u32::MAX,
    ensures
        n <= first_free(nodes, n) <= u32::MAX,
        forall|k: nat| n <= k < first_free(nodes, n) ==> has_node(nodes, #[trigger] id_for(k)),
    decreases u32::MAX - n,
{
    if n < u32::MAX && has_node(nodes, id_for(n)) {
        lemma_first_free_bounds(nodes, n + 1);
    }
}

/// The first id `n<k>` with `k >= *next_n` that no node has; `*next_n` moves past it.
pub fn fresh_id(next_n: &mut u32, nodes: &[Node]) -> (id: String)
    requires
        fresh_available(nodes@, *old(next_n)),
    ensures
        id@ == id_for(first_free(nodes@, *old(next_n) as nat)),
        !has_node(nodes@, id@),
        *final(next_n) as nat == if first_free(nodes@, *old(next_n) as nat) < u32::MAX {
            first_free(nodes@, *old(next_n) as nat) + 1
        } else {
            u32::MAX as nat
        },
{
    let ghost start = *next_n as nat;
    proof {
        lemma_first_free_bounds(nodes@, start);
    }
    loop
        invariant
            start == *old(next_n) as nat,
            start <= *next_n,
            first_free(nodes@, start) == first_free(nodes@, *next_n as nat),
            fresh_available(nodes@, *next_n),
        decreases u32::MAX - *next_n,
    {
        let k = *next_n;
        let mut id = String::new();
        push_char(&mut id, 'n');
        push_decimal(&mut id, k);
        assert(id@ == id_for(k as nat));
        *next_n = k.saturating_add(1);
        if !node_with_id(nodes, id.as_str()) {
            assert(first_free(nodes@, k as nat) == k as nat);
            return id;
        }
        proof {
            let w = choose|w: u32| k <= w && !has_node(nodes@, #[trigger] id_for(w as nat));
            assert(w != k);
            lemma_first_free_step(nodes@, k as nat);
            assert(*next_n == k + 1);
            assert(fresh_available(nodes@, *next_n));
        }
    }
}


/// The edges that survive loading, in order: an edge is kept when both ends
/// are cards, it is not there yet, and it closes no cycle with those kept before it.
pub open spec fn clean_edges(nodes: Seq<Node>, edges: Seq<Edge>) -> Seq<Edge>
    decreases edges.len(),
{
    if edges.len() == 0 {
        Seq::empty()
    } else {
        let prev = clean_edges(nodes, edges.drop_last());
        let e = edges.last();
        if has_node(nodes, e.from@) && has_node(nodes, e.to@) && !has_edge(
            pairs(prev),
            e.from@,
            e.to@,
        ) && !reaches(pairs(prev), e.to@, e.from@) {
            prev.push(e)
        } else {
            prev
        }
    }
}

/// Every edge of `g` joins two cards of `nodes`.
pub open spec fn edges_between_nodes(nodes: Seq<Node>, g: Graph) -> bool {
    forall|i: int| 0 <= i < g.len() ==> has_node(nodes, (#[trigger] g[i]).0) && has_node(nodes, g[i].1)
}

/// What loading keeps of the edges is a DAG without repeated edges, between
/// cards, and made of edges of the input.
pub proof fn lemma_clean_edges(nodes: Seq<Node>, edges: Seq<Edge>)
    ensures
        acyclic(pairs(clean_edges(nodes, edges))),
        pairs(clean_edges(nodes, edges)).no_duplicates(),
        edges_between_nodes(nodes, pairs(clean_edges(nodes, edges))),
        sub_graph(pairs(clean_edges(nodes, edges)), pairs(edges)),
    decreases edges.len(),
{
    if edges.len() == 0 {
        assert(pairs(clean_edges(nodes, edges)) =~= Seq::<(Id, Id)>::empty());
    } else {
        let prev = clean_edges(nodes, edges.drop_last());
        let e = edges.last();
        lemma_clean_edges(nodes, edges.drop_last());
        let g = pairs(prev);
        let ge = pairs(edges);
        assert(pairs(edges.drop_last()) =~= ge.drop_last());
        assert forall|i: int| 0 <= i < g.len() implies has_edge(ge, (#[trigger] g[i]).0, g[i].1) by {
            assert(has_edge(ge.drop_last(), g[i].0, g[i].1));
            let k = choose|k: int| 0 <= k < ge.drop_last().len() && #[trigger] ge.drop_last()[k] == (g[i].0, g[i].1);
            assert(ge[k] == ge.drop_last()[k]);
        }
        if has_node(nodes, e.from@) && has_node(nodes, e.to@) && !has_edge(g, e.from@, e.to@)
            && !reaches(g, e.to@, e.from@) {
            lemma_pairs_push(prev, e);
            let g2 = g.push((e.from@, e.to@));
            lemma_push_keeps_acyclic(g, e.from@, e.to@);
            assert(ge[ge.len() - 1] == (e.from@, e.to@));
            assert forall|i: int, j: int| 0 <= i < g2.len() && 0 <= j < g2.len() && i != j implies g2[i] != g2[j] by {
                if i == g.len() {
                    assert(g2[j] == g[j]);
                } else if j == g.len() {
                    assert(g2[i] == g[i]);
                }
            }
            assert forall|i: int| 0 <= i < g2.len() implies has_edge(ge, (#[trigger] g2[i]).0, g2[i].1) by {
                if i < g.len() {
                    assert(g2[i] == g[i]);
                }
            }
        }
    }
}

/// An acyclic list of distinct edges between cards comes out of cleaning unchanged.
pub proof fn lemma_clean_keeps_dag(nodes: Seq<Node>, c: Seq<Edge>)
    requires
        acyclic(pairs(c)),
        pairs(c).no_duplicates(),
        edges_between_nodes(nodes, pairs(c)),
    ensures
        clean_edges(nodes, c) == c,
    decreases c.len(),
{
    if c.len() > 0 {
        let init = c.drop_last();
        let g = pairs(c);
        let gi = pairs(init);
        assert(gi =~= g.drop_last());
        assert(sub_graph(gi, g)) by {
            assert forall|i: int| 0 <= i < gi.len() implies has_edge(g, (#[trigger] gi[i]).0, gi[i].1) by {
                assert(g[i] == gi[i]);
            }
        }
        lemma_sub_graph_keeps_acyclic(gi, g);
        assert(gi.no_duplicates()) by {
            assert forall|i: int, j: int| 0 <= i < gi.len() && 0 <= j < gi.len() && i != j implies gi[i] != gi[j] by {
                assert(gi[i] == g[i] && gi[j] == g[j]);
            }
        }
        assert(edges_between_nodes(nodes, gi)) by {
            assert forall|i: int| 0 <= i < gi.len() implies has_node(nodes, (#[trigger] gi[i]).0) && has_node(nodes, gi[i].1) by {
                assert(gi[i] == g[i]);
            }
        }
        lemma_clean_keeps_dag(nodes, init);
        let e = c.last();
        let last = g.len() - 1;
        assert(g[last] == (e.from@, e.to@));
        assert(has_node(nodes, e.from@) && has_node(nodes, e.to@));
        if has_edge(gi, e.from@, e.to@) {
            let k = choose|k: int| 0 <= k < gi.len() && #[trigger] gi[k] == (e.from@, e.to@);
            assert(g[k] == g[last]);
        }
        if reaches(gi, e.to@, e.from@) {
            lemma_reaches_sub_graph(gi, g, e.to@, e.from@);
            assert(!reaches(g, g[last].1, g[last].0));
        }
        assert(init.push(e) == c);
    }
}

/// Loading what loading kept keeps all of it: cleaning is idempotent.
pub proof fn lemma_clean_idempotent(nodes: Seq<Node>, edges: Seq<Edge>)
    ensures
        clean_edges(nodes, clean_edges(nodes, edges)) == clean_edges(nodes, edges),
{
    lemma_clean_edges(nodes, edges);
    lemma_clean_keeps_dag(nodes, clean_edges(nodes, edges));
}

/// Checks a parsed document: only version 1 is read, and its edges are
/// cleaned as `clean_edges` says, so that the loaded plan is a DAG over its cards.
pub fn check_document(doc: Document) -> (r: Result<Document, String>)
    ensures
        r is Ok <==> doc.vanplan == 1,
        r matches Err(msg) ==> msg@ == "unsupported vanplan version "@ + crate::text::decimal(
            doc.vanplan as nat,
        ),
        r matches Ok(d) ==> d.vanplan == 1 && d.nodes@ == doc.nodes@ && d.edges@
            == clean_edges(doc.nodes@, doc.edges@),
        r matches Ok(d) ==> acyclic(pairs(d.edges@)) && pairs(d.edges@).no_duplicates()
            && edges_between_nodes(d.nodes@, pairs(d.edges@)) && sub_graph(
            pairs(d.edges@),
            pairs(doc.edges@),
        ),
{
    if doc.vanplan != 1 {
        let mut msg = String::from_str("unsupported vanplan version ");
        push_decimal(&mut msg, doc.vanplan);
        return Err(msg);
    }
    let Document { vanplan, nodes, edges } = doc;
    let mut clean: Vec<Edge> = Vec::new();
    let mut i: usize = 0;
    while i < edges.len()
        invariant
            i <= edges.len(),
            clean@ == clean_edges(nodes@, edges@.take(i as int)),
        decreases edges.len() - i,
    {
        let e = &edges[i];
        assert(edges@.take(i + 1).drop_last() == edges@.take(i as int));
        assert(edges@.take(i + 1).last() == *e);
        if node_with_id(nodes.as_slice(), e.from.as_str()) && node_with_id(
            nodes.as_slice(),
            e.to.as_str(),
        ) {
            let f = e.from.clone();
            let t = e.to.clone();
            let added = add_edge(&mut clean, f, t);
            proof {
                if added {
                    assert(Edge { from: f, to: t } == *e);
                }
            }
        }
        i += 1;
    }
    assert(edges@.take(edges.len() as int) == edges@);
    proof {
        lemma_clean_edges(nodes@, edges@);
    }
    Ok(Document { vanplan, nodes, edges: clean })
}

} // verus!
