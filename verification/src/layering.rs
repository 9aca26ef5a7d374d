//! Which column each card goes to: longest-path layering of the cards that
//! have dependencies (prerequisites left, dependents right), with the cards
//! that have none in a column of their own on the left. The view orders the
//! cards inside each column and turns columns into coordinates.
use vstd::prelude::*;

use crate::model::{acyclic, has_edge, is_path, reaches, str_eq, Graph, Id};
use crate::sort::{is_sorted, sort_strings, string_views};

verus! {

/// The edges as pairs of ids.
pub open spec fn pair_views(es: Seq<(String, String)>) -> Graph {
    es.map_values(|e: (String, String)| (e.0@, e.1@))
}

/// Both ends of `e` are among the cards.
pub open spec fn is_valid(ids: Seq<Id>, e: (Id, Id)) -> bool {
    ids.contains(e.0) && ids.contains(e.1)
}

/// Some edge between cards starts or ends at `x`.
pub open spec fn touched(ids: Seq<Id>, g: Graph, x: Id) -> bool {
    exists|k: int| 0 <= k < g.len() && is_valid(ids, #[trigger] g[k]) && (g[k].0 == x || g[k].1 == x)
}

/// `touched` as a predicate.
pub open spec fn is_touched(ids: Seq<Id>, g: Graph) -> spec_fn(Id) -> bool {
    |x: Id| touched(ids, g, x)
}

/// Every connected card starts in layer 0.
pub open spec fn initial_layers(ids: Seq<Id>, g: Graph) -> Map<Id, nat> {
    Map::new(|x: Id| ids.contains(x) && touched(ids, g, x), |x: Id| 0nat)
}

/// `n + 1`, held at `usize::MAX` (the layer counter saturates).
pub open spec fn succ_capped(n: nat) -> nat {
    if n < usize::MAX {
        n + 1
    } else {
        usize::MAX as nat
    }
}

/// Pushes the dependent of `e` to the layer after its prerequisite when it
/// is not already further right; says whether it moved.
pub open spec fn relax_edge(m: Map<Id, nat>, e: (Id, Id)) -> (Map<Id, nat>, bool) {
    if m.contains_key(e.0) && m.contains_key(e.1) && m[e.1] < succ_capped(m[e.0]) {
        (m.insert(e.1, succ_capped(m[e.0])), true)
    } else {
        (m, false)
    }
}

/// Relaxes the first `j` edges in order.
pub open spec fn relax_upto(m: Map<Id, nat>, g: Graph, j: int) -> (Map<Id, nat>, bool)
    decreases j,
{
    if j <= 0 {
        (m, false)
    } else {
        let r = relax_upto(m, g, j - 1);
        let s = relax_edge(r.0, g[j - 1]);
        (s.0, r.1 || s.1)
    }
}

/// Up to `k` passes over all edges, stopping after a pass that moves nothing.
pub open spec fn layers_after(m: Map<Id, nat>, g: Graph, k: nat) -> Map<Id, nat>
    decreases k,
{
    if k == 0 {
        m
    } else {
        let r = relax_upto(m, g, g.len() as int);
        if !r.1 {
            r.0
        } else {
            layers_after(r.0, g, (k - 1) as nat)
        }
    }
}

/// The number of connected entries of `ids` (repeats counted).
pub open spec fn connected_count(ids: Seq<Id>, g: Graph) -> nat {
    ids.filter(is_touched(ids, g)).len()
}

/// The layers of the connected cards: as many passes as there are connected
/// cards (at least one).
pub open spec fn final_layers(ids: Seq<Id>, g: Graph) -> Map<Id, nat> {
    let n = connected_count(ids, g);
    layers_after(initial_layers(ids, g), g, if n == 0 {
        1
    } else {
        n
    })
}

/// There are both cards without and cards with dependencies.
pub open spec fn has_leftover(ids: Seq<Id>, g: Graph) -> bool {
    &&& exists|i: int| 0 <= i < ids.len() && !touched(ids, g, #[trigger] ids[i])
    &&& exists|i: int| 0 <= i < ids.len() && touched(ids, g, #[trigger] ids[i])
}

/// The column of the card `x`: cards without dependencies in column 0,
/// the others in their layer, one further right when column 0 is taken.
pub open spec fn column_of(ids: Seq<Id>, g: Graph, x: Id) -> nat {
    if touched(ids, g, x) {
        if has_leftover(ids, g) {
            succ_capped(final_layers(ids, g)[x])
        } else {
            final_layers(ids, g)[x]
        }
    } else {
        0
    }
}

/// The predicate "is in column `v`".
pub open spec fn in_column(ids: Seq<Id>, g: Graph, v: nat) -> spec_fn(Id) -> bool {
    |x: Id| column_of(ids, g, x) == v
}

/// The entries of `ids` in column `v`, in order.
pub open spec fn column_members(ids: Seq<Id>, g: Graph, v: nat) -> Seq<Id> {
    ids.filter(in_column(ids, g, v))
}

fn contains_id(ids: &[String], s: &str) -> (r: Option<usize>)
    ensures
        r is Some <==> string_views(ids@).contains(s@),
        r matches Some(i) ==> i < ids@.len() && ids@[i as int]@ == s@,
{
    let mut i: usize = 0;
    while i < ids.len()
        invariant
            i <= ids.len(),
            forall|k: int| 0 <= k < i ==> (#[trigger] ids@[k])@ != s@,
        decreases ids.len() - i,
    {
        if str_eq(ids[i].as_str(), s) {
            assert(string_views(ids@)[i as int] == s@);
            return Some(i);
        }
        i += 1;
    }
    proof {
        if string_views(ids@).contains(s@) {
            let k = choose|k: int| 0 <= k < ids@.len() && #[trigger] string_views(ids@)[k] == s@;
            assert(ids@[k]@ == s@);
        }
    }
    None
}

/// The layering of `ids` by the dependencies `edges`: the non-empty columns
/// from left to right, each with its number and its ids in string order.
pub fn layer_columns(ids: &[String], edges: &[(String, String)]) -> (cols: Vec<(usize, Vec<String>)>)
    ensures
        forall|k: int|
            0 <= k < cols@.len() ==> {
                &&& (#[trigger] cols@[k]).1@.len() > 0
                &&& is_sorted(string_views(cols@[k].1@))
                &&& string_views(cols@[k].1@).to_multiset() == column_members(
                    string_views(ids@),
                    pair_views(edges@),
                    cols@[k].0 as nat,
                ).to_multiset()
            },
        forall|k1: int, k2: int|
            0 <= k1 < k2 < cols@.len() ==> (#[trigger] cols@[k1]).0 < (#[trigger] cols@[k2]).0,
        forall|i: int|
            #![trigger ids@[i]]
            0 <= i < ids@.len() ==> exists|k: int|
                0 <= k < cols@.len() && (#[trigger] cols@[k]).0 as nat == column_of(
                    string_views(ids@),
                    pair_views(edges@),
                    string_views(ids@)[i],
                ),
{
    let ghost iv = string_views(ids@);
    let ghost g = pair_views(edges@);
    let mut cols: Vec<(usize, Vec<String>)> = Vec::new();
    if ids.len() == 0 {
        return cols;
    }
    // Which edges join two cards.
    let mut valid: Vec<bool> = Vec::new();
    let mut k: usize = 0;
    while k < edges.len()
        invariant
            iv == string_views(ids@),
            g == pair_views(edges@),
            k <= edges.len(),
            valid@.len() == k,
            forall|q: int| 0 <= q < k ==> valid@[q] == is_valid(iv, #[trigger] g[q]),
        decreases edges.len() - k,
    {
        let a = contains_id(ids, edges[k].0.as_str());
        let b = contains_id(ids, edges[k].1.as_str());
        assert(g[k as int] == (edges@[k as int].0@, edges@[k as int].1@));
        valid.push(a.is_some() && b.is_some());
        k += 1;
    }
    // Which cards some such edge touches.
    let mut tch: Vec<bool> = Vec::new();
    let mut i: usize = 0;
    while i < ids.len()
        invariant
            iv == string_views(ids@),
            g == pair_views(edges@),
            valid@.len() == edges@.len(),
            forall|q: int| 0 <= q < edges@.len() ==> valid@[q] == is_valid(iv, #[trigger] g[q]),
            i <= ids.len(),
            tch@.len() == i,
            forall|p: int| 0 <= p < i ==> tch@[p] == touched(iv, g, #[trigger] iv[p]),
        decreases ids.len() - i,
    {
        let mut found = false;
        let mut k: usize = 0;
        while k < edges.len()
            invariant
                iv == string_views(ids@),
                g == pair_views(edges@),
                valid@.len() == edges@.len(),
                forall|q: int| 0 <= q < edges@.len() ==> valid@[q] == is_valid(iv, #[trigger] g[q]),
                i < ids.len(),
                k <= edges.len(),
                found == exists|q: int|
                    0 <= q < k && is_valid(iv, #[trigger] g[q]) && (g[q].0 == iv[i as int]
                        || g[q].1 == iv[i as int]),
            decreases edges.len() - k,
        {
            assert(g[k as int] == (edges@[k as int].0@, edges@[k as int].1@));
            if valid[k] && (str_eq(edges[k].0.as_str(), ids[i].as_str()) || str_eq(
                edges[k].1.as_str(),
                ids[i].as_str(),
            )) {
                found = true;
            }
            k += 1;
        }
        tch.push(found);
        i += 1;
    }
    // The distinct connected cards (by first position), and each entry's key.
    let mut keys: Vec<usize> = Vec::new();
    let mut kidx: Vec<usize> = Vec::new();
    let mut n_conn: usize = 0;
    let mut any_iso = false;
    let mut any_conn = false;
    let mut i: usize = 0;
    while i < ids.len()
        invariant
            iv == string_views(ids@),
            g == pair_views(edges@),
            tch@.len() == ids@.len(),
            forall|p: int| 0 <= p < ids@.len() ==> tch@[p] == touched(iv, g, #[trigger] iv[p]),
            i <= ids.len(),
            kidx@.len() == i,
            forall|t: int| 0 <= t < keys@.len() ==> (#[trigger] keys@[t]) < ids@.len() && tch@[keys@[t] as int],
            forall|t1: int, t2: int|
                0 <= t1 < t2 < keys@.len() ==> iv[(#[trigger] keys@[t1]) as int] != iv[(#[trigger] keys@[t2]) as int],
            forall|p: int|
                0 <= p < i && tch@[p] ==> (#[trigger] kidx@[p]) < keys@.len() && iv[keys@[kidx@[p] as int] as int] == iv[p],
            forall|t: int| 0 <= t < keys@.len() ==> exists|p: int| #![trigger iv[p]] 0 <= p < i && iv[p] == iv[(#[trigger] keys@[t]) as int],
            n_conn == iv.take(i as int).filter(is_touched(iv, g)).len(),
            n_conn <= i,
            any_iso == exists|p: int| 0 <= p < i && !tch@[p],
            any_conn == exists|p: int| 0 <= p < i && tch@[p],
        decreases ids.len() - i,
    {
        proof {
            reveal_with_fuel(Seq::filter, 1);
            assert(iv.take(i + 1).drop_last() == iv.take(i as int));
            assert(iv.take(i + 1).last() == iv[i as int]);
            iv.take(i as int).lemma_filter_len(is_touched(iv, g));
        }
        if tch[i] {
            n_conn += 1;
            any_conn = true;
            let mut t: usize = 0;
            let mut hit: Option<usize> = None;
            while t < keys.len()
                invariant
                    iv == string_views(ids@),
                    forall|t: int| 0 <= t < keys@.len() ==> (#[trigger] keys@[t]) < ids@.len(),
                    i < ids.len(),
                    t <= keys.len(),
                    hit is None ==> forall|u: int| 0 <= u < t ==> iv[(#[trigger] keys@[u]) as int] != iv[i as int],
                    hit matches Some(u) ==> u < keys@.len() && iv[keys@[u as int] as int] == iv[i as int],
                decreases keys.len() - t,
            {
                if hit.is_none() && str_eq(ids[keys[t]].as_str(), ids[i].as_str()) {
                    assert(iv[keys@[t as int] as int] == ids@[keys@[t as int] as int]@);
                    hit = Some(t);
                }
                assert(iv[keys@[t as int] as int] == ids@[keys@[t as int] as int]@);
                assert(iv[i as int] == ids@[i as int]@);
                t += 1;
            }
            match hit {
                Some(u) => {
                    kidx.push(u);
                },
                None => {
                    kidx.push(keys.len());
                    keys.push(i);
                },
            }
        } else {
            any_iso = true;
            kidx.push(0);
        }
        proof {
            assert forall|t: int| 0 <= t < keys@.len() implies exists|p: int|
                #![trigger iv[p]] 0 <= p < i + 1 && iv[p] == iv[(#[trigger] keys@[t]) as int] by {
                if keys@[t] == i {
                    assert(iv[i as int] == iv[keys@[t] as int]);
                }
            }
        }
        i += 1;
    }
    assert(iv.take(ids.len() as int) == iv);
    let ghost init = initial_layers(iv, g);
    proof {
        assert forall|x: Id| #[trigger] init.contains_key(x) implies exists|t: int|
            #![trigger keys@[t]] 0 <= t < keys@.len() && iv[keys@[t] as int] == x by {
            let p = choose|p: int| 0 <= p < iv.len() && iv[p] == x;
            assert(tch@[p]);
            assert(iv[keys@[kidx@[p] as int] as int] == iv[p]);
        }
    }
    // Resolve each edge between cards to the keys of its ends.
    let mut ek: Vec<Option<(usize, usize)>> = Vec::new();
    let mut k: usize = 0;
    while k < edges.len()
        invariant
            iv == string_views(ids@),
            g == pair_views(edges@),
            valid@.len() == edges@.len(),
            forall|q: int| 0 <= q < edges@.len() ==> valid@[q] == is_valid(iv, #[trigger] g[q]),
            tch@.len() == ids@.len(),
            forall|p: int| 0 <= p < ids@.len() ==> tch@[p] == touched(iv, g, #[trigger] iv[p]),
            kidx@.len() == ids@.len(),
            forall|t: int| 0 <= t < keys@.len() ==> (#[trigger] keys@[t]) < ids@.len(),
            forall|p: int|
                0 <= p < ids@.len() && tch@[p] ==> (#[trigger] kidx@[p]) < keys@.len() && iv[keys@[kidx@[p] as int] as int] == iv[p],
            k <= edges.len(),
            ek@.len() == k,
            forall|q: int|
                0 <= q < k ==> match #[trigger] ek@[q] {
                    Some((a, b)) => is_valid(iv, g[q]) && a < keys@.len() && b < keys@.len()
                        && iv[keys@[a as int] as int] == g[q].0 && iv[keys@[b as int] as int] == g[q].1,
                    None => !is_valid(iv, g[q]),
                },
        decreases edges.len() - k,
    {
        assert(g[k as int] == (edges@[k as int].0@, edges@[k as int].1@));
        if valid[k] {
            let pa = contains_id(ids, edges[k].0.as_str());
            let pb = contains_id(ids, edges[k].1.as_str());
            match (pa, pb) {
                (Some(a), Some(b)) => {
                    proof {
                        assert(iv[a as int] == g[k as int].0);
                        assert(iv[b as int] == g[k as int].1);
                        assert(touched(iv, g, iv[a as int]));
                        assert(touched(iv, g, iv[b as int]));
                    }
                    ek.push(Some((kidx[a], kidx[b])));
                },
                _ => {
                    ek.push(None);
                },
            }
        } else {
            ek.push(None);
        }
        k += 1;
    }
    // Longest-path layers, relaxed pass after pass.
    let mut lay: Vec<usize> = Vec::new();
    let mut t: usize = 0;
    while t < keys.len()
        invariant
            t <= keys.len(),
            lay@.len() == t,
            forall|u: int| 0 <= u < t ==> lay@[u] == 0,
        decreases keys.len() - t,
    {
        lay.push(0);
        t += 1;
    }
    let ghost mut m: Map<Id, nat> = init;
    proof {
        assert forall|u: int| 0 <= u < keys@.len() implies init.contains_key(iv[(#[trigger] keys@[u]) as int]) by {
            assert(tch@[keys@[u] as int]);
        }
    }
    let n_passes: usize = if n_conn == 0 {
        1
    } else {
        n_conn
    };
    let ghost total = layers_after(init, g, n_passes as nat);
    let mut pass: usize = 0;
    while pass < n_passes
        invariant
            iv == string_views(ids@),
            g == pair_views(edges@),
            keys@.len() == lay@.len(),
            forall|t: int| 0 <= t < keys@.len() ==> (#[trigger] keys@[t]) < ids@.len(),
            forall|t1: int, t2: int|
                0 <= t1 < t2 < keys@.len() ==> iv[(#[trigger] keys@[t1]) as int] != iv[(#[trigger] keys@[t2]) as int],
            forall|x: Id| #[trigger] m.contains_key(x) <==> exists|t: int| #![trigger keys@[t]] 0 <= t < keys@.len() && iv[keys@[t] as int] == x,
            forall|u: int| 0 <= u < keys@.len() ==> m[iv[(#[trigger] keys@[u]) as int]] == lay@[u] as nat,
            ek@.len() == edges@.len(),
            forall|q: int|
                0 <= q < edges@.len() ==> match #[trigger] ek@[q] {
                    Some((a, b)) => is_valid(iv, g[q]) && a < keys@.len() && b < keys@.len()
                        && iv[keys@[a as int] as int] == g[q].0 && iv[keys@[b as int] as int] == g[q].1,
                    None => !is_valid(iv, g[q]),
                },
            1 <= n_passes <= ids@.len(),
            pass <= n_passes,
            total == layers_after(m, g, (n_passes - pass) as nat),
        decreases n_passes - pass,
    {
        let ghost start = m;
        let mut changed = false;
        let mut j: usize = 0;
        while j < edges.len()
            invariant
                iv == string_views(ids@),
                g == pair_views(edges@),
                keys@.len() == lay@.len(),
                forall|t: int| 0 <= t < keys@.len() ==> (#[trigger] keys@[t]) < ids@.len(),
                forall|t1: int, t2: int|
                    0 <= t1 < t2 < keys@.len() ==> iv[(#[trigger] keys@[t1]) as int] != iv[(#[trigger] keys@[t2]) as int],
                forall|x: Id| #[trigger] m.contains_key(x) <==> exists|t: int| #![trigger keys@[t]] 0 <= t < keys@.len() && iv[keys@[t] as int] == x,
                forall|u: int| 0 <= u < keys@.len() ==> m[iv[(#[trigger] keys@[u]) as int]] == lay@[u] as nat,
                ek@.len() == edges@.len(),
                forall|q: int|
                    0 <= q < edges@.len() ==> match #[trigger] ek@[q] {
                        Some((a, b)) => is_valid(iv, g[q]) && a < keys@.len() && b < keys@.len()
                            && iv[keys@[a as int] as int] == g[q].0 && iv[keys@[b as int] as int] == g[q].1,
                        None => !is_valid(iv, g[q]),
                    },
                j <= edges.len(),
                (m, changed) == relax_upto(start, g, j as int),
                forall|x: Id| #[trigger] start.contains_key(x) <==> m.contains_key(x),
                1 <= n_passes <= ids@.len(),
                pass < n_passes,
            decreases edges.len() - j,
        {
            let ghost before = (m, changed);
            let ghost e = g[j as int];
            if let Some((a, b)) = ek[j] {
                let ghost ka = iv[keys@[a as int] as int];
                let ghost kb = iv[keys@[b as int] as int];
                assert(m.contains_key(ka) && m.contains_key(kb));
                assert(m[ka] == lay@[a as int] && m[kb] == lay@[b as int]);
                let nv = lay[a].saturating_add(1);
                assert(nv as nat == succ_capped(lay@[a as int] as nat));
                if lay[b] < nv {
                    lay.set(b, nv);
                    changed = true;
                    proof {
                        m = m.insert(kb, nv as nat);
                        assert(relax_edge(before.0, e) == (m, true));
                        assert forall|u: int| 0 <= u < keys@.len() implies m[iv[(#[trigger] keys@[u]) as int]] == lay@[u] as nat by {
                            if u != b {
                                assert(iv[keys@[u] as int] != kb);
                            }
                        }
                        assert forall|x: Id| #[trigger] m.contains_key(x) <==> exists|t: int| #![trigger keys@[t]] 0 <= t < keys@.len() && iv[keys@[t] as int] == x by {
                            if x == kb {
                                assert(iv[keys@[b as int] as int] == x);
                            }
                        }
                    }
                } else {
                    assert(relax_edge(before.0, e) == (m, false));
                }
            } else {
                proof {
                    assert(!is_valid(iv, e));
                    if m.contains_key(e.0) && m.contains_key(e.1) {
                        let t0 = choose|t: int| #![trigger keys@[t]] 0 <= t < keys@.len() && iv[keys@[t] as int] == e.0;
                        let t1 = choose|t: int| #![trigger keys@[t]] 0 <= t < keys@.len() && iv[keys@[t] as int] == e.1;
                        assert(iv.contains(e.0));
                        assert(iv.contains(e.1));
                    }
                    assert(relax_edge(before.0, e) == (m, false));
                }
            }
            proof {
                assert(relax_upto(start, g, j + 1) == ({
                    let s = relax_edge(before.0, g[j as int]);
                    (s.0, before.1 || s.1)
                }));
            }
            j += 1;
        }
        if !changed {
            proof {
                assert(total == m);
            }
            pass = n_passes;
        } else {
            pass += 1;
        }
    }
    let ghost fl = final_layers(iv, g);
    assert(fl == m);
    // Column of each entry.
    let shift: usize = if any_iso && any_conn {
        1
    } else {
        0
    };
    proof {
        if any_iso {
            let p = choose|p: int| 0 <= p < ids@.len() && !tch@[p];
            assert(!touched(iv, g, iv[p]));
        }
        if any_conn {
            let p = choose|p: int| 0 <= p < ids@.len() && tch@[p];
            assert(touched(iv, g, iv[p]));
        }
        if has_leftover(iv, g) {
            let p = choose|p: int| 0 <= p < iv.len() && !touched(iv, g, #[trigger] iv[p]);
            assert(!tch@[p]);
            let p2 = choose|p: int| 0 <= p < iv.len() && touched(iv, g, #[trigger] iv[p]);
            assert(tch@[p2]);
        }
        assert(has_leftover(iv, g) == (shift == 1));
    }
    let mut colv: Vec<usize> = Vec::new();
    let mut max_col: usize = 0;
    let mut i: usize = 0;
    while i < ids.len()
        invariant
            iv == string_views(ids@),
            g == pair_views(edges@),
            fl == final_layers(iv, g),
            tch@.len() == ids@.len(),
            forall|p: int| 0 <= p < ids@.len() ==> tch@[p] == touched(iv, g, #[trigger] iv[p]),
            kidx@.len() == ids@.len(),
            keys@.len() == lay@.len(),
            forall|p: int|
                0 <= p < ids@.len() && tch@[p] ==> (#[trigger] kidx@[p]) < keys@.len() && iv[keys@[kidx@[p] as int] as int] == iv[p],
            forall|u: int| 0 <= u < keys@.len() ==> fl[iv[(#[trigger] keys@[u]) as int]] == lay@[u] as nat,
            1 <= n_passes <= ids@.len(),
            has_leftover(iv, g) == (shift == 1),
            shift <= 1,
            i <= ids.len(),
            colv@.len() == i,
            forall|p: int| 0 <= p < i ==> (#[trigger] colv@[p]) as nat == column_of(iv, g, iv[p]),
            forall|p: int| 0 <= p < i ==> (#[trigger] colv@[p]) <= max_col,
        decreases ids.len() - i,
    {
        let c: usize = if tch[i] {
            lay[kidx[i]].saturating_add(shift)
        } else {
            0
        };
        colv.push(c);
        if c > max_col {
            max_col = c;
        }
        i += 1;
    }
    // Gather the columns from left to right.
    let mut v: u128 = 0;
    while v <= max_col as u128
        invariant
            iv == string_views(ids@),
            g == pair_views(edges@),
            colv@.len() == ids@.len(),
            forall|p: int| 0 <= p < ids@.len() ==> (#[trigger] colv@[p]) as nat == column_of(iv, g, iv[p]),
            forall|p: int| 0 <= p < ids@.len() ==> (#[trigger] colv@[p]) <= max_col,
            v <= max_col + 1,
            forall|k: int|
                0 <= k < cols@.len() ==> {
                    &&& (#[trigger] cols@[k]).1@.len() > 0
                    &&& is_sorted(string_views(cols@[k].1@))
                    &&& string_views(cols@[k].1@).to_multiset() == column_members(iv, g, cols@[k].0 as nat).to_multiset()
                    &&& cols@[k].0 < v
                },
            forall|k1: int, k2: int|
                0 <= k1 < k2 < cols@.len() ==> (#[trigger] cols@[k1]).0 < (#[trigger] cols@[k2]).0,
            forall|p: int|
                0 <= p < ids@.len() && colv@[p] < v ==> exists|k: int|
                    0 <= k < cols@.len() && (#[trigger] cols@[k]).0 == colv@[p],
        decreases max_col + 1 - v,
    {
        let ghost pred = in_column(iv, g, v as nat);
        let mut mem: Vec<String> = Vec::new();
        let mut i: usize = 0;
        while i < ids.len()
            invariant
                iv == string_views(ids@),
                pred == in_column(iv, g, v as nat),
                colv@.len() == ids@.len(),
                forall|p: int| 0 <= p < ids@.len() ==> (#[trigger] colv@[p]) as nat == column_of(iv, g, iv[p]),
                i <= ids.len(),
                string_views(mem@) == iv.take(i as int).filter(pred),
            decreases ids.len() - i,
        {
            proof {
                reveal_with_fuel(Seq::filter, 1);
                assert(iv.take(i + 1).drop_last() == iv.take(i as int));
                assert(iv.take(i + 1).last() == iv[i as int]);
            }
            if colv[i] as u128 == v {
                let s = ids[i].clone();
                mem.push(s);
                assert(string_views(mem@) == iv.take(i as int).filter(pred).push(iv[i as int]));
            }
            i += 1;
        }
        assert(iv.take(ids.len() as int) == iv);
        let sorted = sort_strings(&mem);
        let ghost old_cols = cols@;
        proof {
            assert forall|p: int| 0 <= p < ids@.len() && colv@[p] == v implies string_views(mem@).len() > 0 by {
                iv.lemma_filter_contains(pred, p);
            }
        }
        if sorted.len() > 0 {
            cols.push((v as usize, sorted));
            proof {
                assert forall|k1: int, k2: int| 0 <= k1 < k2 < cols@.len() implies (#[trigger] cols@[k1]).0 < (#[trigger] cols@[k2]).0 by {
                    if k2 < old_cols.len() {
                        assert(cols@[k1] == old_cols[k1] && cols@[k2] == old_cols[k2]);
                    } else {
                        assert(cols@[k1] == old_cols[k1]);
                    }
                }
                assert forall|k: int| 0 <= k < cols@.len() implies {
                    &&& (#[trigger] cols@[k]).1@.len() > 0
                    &&& is_sorted(string_views(cols@[k].1@))
                    &&& string_views(cols@[k].1@).to_multiset() == column_members(iv, g, cols@[k].0 as nat).to_multiset()
                    &&& cols@[k].0 < v + 1
                } by {
                    if k < old_cols.len() {
                        assert(cols@[k] == old_cols[k]);
                    }
                }
                assert forall|p: int| 0 <= p < ids@.len() && colv@[p] < v + 1 implies exists|k: int|
                    0 <= k < cols@.len() && (#[trigger] cols@[k]).0 == colv@[p] by {
                    if colv@[p] == v {
                        assert(cols@[old_cols.len() as int].0 == v);
                    } else {
                        let k = choose|k: int| 0 <= k < old_cols.len() && (#[trigger] old_cols[k]).0 == colv@[p];
                        assert(cols@[k] == old_cols[k]);
                    }
                }
            }
        } else {
            proof {
                string_views(mem@).to_multiset_ensures();
                string_views(sorted@).to_multiset_ensures();
            }
        }
        v += 1;
    }
    proof {
        assert forall|i: int|
            #![trigger ids@[i]]
            0 <= i < ids@.len() implies exists|k: int|
                0 <= k < cols@.len() && (#[trigger] cols@[k]).0 as nat == column_of(iv, g, iv[i]) by {
            assert(colv@[i] < v);
            let k = choose|k: int| 0 <= k < cols@.len() && (#[trigger] cols@[k]).0 == colv@[i];
            assert(cols@[k].0 as nat == column_of(iv, g, iv[i]));
        }
    }
    cols
}


/// The connected cards: the keys of the layer map.
pub open spec fn connected_set(ids: Seq<Id>, g: Graph) -> Set<Id> {
    Set::new(|x: Id| ids.contains(x) && touched(ids, g, x))
}

/// `p` is a walk along edges of `g` through connected cards.
pub open spec fn card_walk(ids: Seq<Id>, g: Graph, p: Seq<Id>) -> bool {
    &&& is_path(g, p)
    &&& forall|i: int| 0 <= i < p.len() ==> connected_set(ids, g).contains(#[trigger] p[i])
}

/// Every layer value is the length of some walk that ends at its card.
pub open spec fn witnessed(ids: Seq<Id>, g: Graph, m: Map<Id, nat>) -> bool {
    forall|x: Id|
        #[trigger] m.contains_key(x) ==> exists|p: Seq<Id>|
            card_walk(ids, g, p) && #[trigger] p.last() == x && p.len() == m[x] + 1
}

/// Every walk of at most `c` cards ends at a card whose layer is at least its length.
pub open spec fn lower(ids: Seq<Id>, g: Graph, m: Map<Id, nat>, c: nat) -> bool {
    forall|p: Seq<Id>|
        card_walk(ids, g, p) && p.len() <= c ==> m.contains_key(#[trigger] p.last()) && m[p.last()]
            + 1 >= p.len()
}

/// No walk through the cards is longer than the card list, which itself fits
/// in a `usize`.
#[verifier::opaque]
spec fn short_walks(ids: Seq<Id>, g: Graph) -> bool {
    &&& ids.len() <= usize::MAX
    &&& forall|p: Seq<Id>| #[trigger] card_walk(ids, g, p) ==> p.len() <= ids.len()
}

/// Every edge between layered cards goes strictly to the right.
pub open spec fn stable(g: Graph, m: Map<Id, nat>) -> bool {
    forall|k: int|
        0 <= k < g.len() && m.contains_key((#[trigger] g[k]).0) && m.contains_key(g[k].1) ==> m[g[k].1]
            >= m[g[k].0] + 1
}

proof fn lemma_relax_upto(ids: Seq<Id>, g: Graph, m: Map<Id, nat>, j: int)
    requires
        short_walks(ids, g),
        0 <= j <= g.len(),
        m.dom() == connected_set(ids, g),
        witnessed(ids, g, m),
    ensures
        relax_upto(m, g, j).0.dom() == m.dom(),
        forall|x: Id| #[trigger] m.contains_key(x) ==> relax_upto(m, g, j).0[x] >= m[x],
        forall|k: int|
            0 <= k < j && m.contains_key((#[trigger] g[k]).0) && m.contains_key(g[k].1) ==> relax_upto(
                m,
                g,
                j,
            ).0[g[k].1] >= m[g[k].0] + 1,
        !relax_upto(m, g, j).1 ==> relax_upto(m, g, j).0 == m,
        witnessed(ids, g, relax_upto(m, g, j).0),
    decreases j,
{
    if j > 0 {
        lemma_relax_upto(ids, g, m, j - 1);
        let r = relax_upto(m, g, j - 1);
        let e = g[j - 1];
        let s2 = relax_edge(r.0, e);
        assert(relax_upto(m, g, j) == (s2.0, r.1 || s2.1));
        if r.0.contains_key(e.0) {
            lemma_layer_bound(ids, g, r.0, e.0);
        }
        if r.0.contains_key(e.0) && r.0.contains_key(e.1) && r.0[e.1] < r.0[e.0] + 1 {
            let n = r.0.insert(e.1, r.0[e.0] + 1);
            assert(s2.0 == n);
            assert forall|x: Id| #[trigger] n.contains_key(x) implies exists|p: Seq<Id>|
                card_walk(ids, g, p) && #[trigger] p.last() == x && p.len() == n[x] + 1 by {
                if x == e.1 {
                    let p = choose|p: Seq<Id>|
                        card_walk(ids, g, p) && #[trigger] p.last() == e.0 && p.len() == r.0[e.0] + 1;
                    let q = p.push(e.1);
                    assert(has_edge(g, e.0, e.1)) by {
                        assert(g[j - 1] == (e.0, e.1));
                    }
                    assert forall|i: int| 0 <= i < q.len() - 1 implies has_edge(g, #[trigger] q[i], q[i + 1]) by {
                        if i < p.len() - 1 {
                            assert(q[i] == p[i] && q[i + 1] == p[i + 1]);
                        } else {
                            assert(q[i] == e.0 && q[i + 1] == e.1);
                        }
                    }
                    assert forall|i: int| 0 <= i < q.len() implies connected_set(ids, g).contains(#[trigger] q[i]) by {
                        if i < p.len() {
                            assert(q[i] == p[i]);
                        }
                    }
                    assert(q.last() == x);
                    assert(card_walk(ids, g, q));
                }
            }
            assert forall|k: int|
                0 <= k < j && m.contains_key((#[trigger] g[k]).0) && m.contains_key(g[k].1) implies n[g[k].1]
                >= m[g[k].0] + 1 by {
                if k < j - 1 {
                    if g[k].1 != e.1 {
                    }
                }
            }
        } else {
            assert(s2.0 == r.0);
            assert forall|k: int|
                0 <= k < j && m.contains_key((#[trigger] g[k]).0) && m.contains_key(g[k].1) implies r.0[g[k].1]
                >= m[g[k].0] + 1 by {
                if k == j - 1 {
                    assert(r.0[e.0] >= m[e.0]);
                }
            }
        }
    }
}

proof fn lemma_pass_lower(ids: Seq<Id>, g: Graph, m: Map<Id, nat>, c: nat)
    requires
        short_walks(ids, g),
        c >= 1,
        m.dom() == connected_set(ids, g),
        witnessed(ids, g, m),
        lower(ids, g, m, c),
    ensures
        lower(ids, g, relax_upto(m, g, g.len() as int).0, c + 1),
{
    lemma_relax_upto(ids, g, m, g.len() as int);
    let r = relax_upto(m, g, g.len() as int).0;
    assert forall|p: Seq<Id>|
        card_walk(ids, g, p) && p.len() <= c + 1 implies r.contains_key(#[trigger] p.last()) && r[p.last()] + 1
        >= p.len() by {
        assert(connected_set(ids, g).contains(p[p.len() - 1]));
        if p.len() <= c {
            assert(m.contains_key(p.last()));
        } else {
            let q = p.drop_last();
            assert(card_walk(ids, g, q)) by {
                assert forall|i: int| 0 <= i < q.len() - 1 implies has_edge(g, #[trigger] q[i], q[i + 1]) by {
                    assert(q[i] == p[i] && q[i + 1] == p[i + 1]);
                }
                assert forall|i: int| 0 <= i < q.len() implies connected_set(ids, g).contains(#[trigger] q[i]) by {
                    assert(q[i] == p[i]);
                }
            }
            assert(m.contains_key(q.last()) && m[q.last()] + 1 >= q.len());
            let u = p[p.len() - 2];
            let v = p.last();
            assert(q.last() == u);
            assert(has_edge(g, u, v));
            let k = choose|k: int| 0 <= k < g.len() && #[trigger] g[k] == (u, v);
            assert(connected_set(ids, g).contains(p[p.len() - 2]));
            assert(m.contains_key(g[k].0) && m.contains_key(g[k].1));
        }
    }
}

proof fn lemma_layers_after(ids: Seq<Id>, g: Graph, m: Map<Id, nat>, c: nat, k: nat)
    requires
        short_walks(ids, g),
        c >= 1,
        m.dom() == connected_set(ids, g),
        witnessed(ids, g, m),
        lower(ids, g, m, c),
    ensures
        layers_after(m, g, k).dom() == connected_set(ids, g),
        witnessed(ids, g, layers_after(m, g, k)),
        stable(g, layers_after(m, g, k)) || lower(ids, g, layers_after(m, g, k), c + k),
    decreases k,
{
    if k > 0 {
        lemma_relax_upto(ids, g, m, g.len() as int);
        let r = relax_upto(m, g, g.len() as int);
        if !r.1 {
            assert(r.0 == m);
            assert forall|q: int|
                0 <= q < g.len() && m.contains_key((#[trigger] g[q]).0) && m.contains_key(g[q].1) implies m[g[q].1]
                >= m[g[q].0] + 1 by {
            }
        } else {
            lemma_pass_lower(ids, g, m, c);
            lemma_layers_after(ids, g, r.0, c + 1, (k - 1) as nat);
        }
    }
}

proof fn lemma_walk_is_short(ids: Seq<Id>, g: Graph, p: Seq<Id>)
    requires
        acyclic(g),
        card_walk(ids, g, p),
    ensures
        connected_set(ids, g).finite(),
        p.len() <= connected_set(ids, g).len(),
{
    let vs = connected_set(ids, g);
    vstd::seq_lib::seq_to_set_is_finite(ids);
    assert(vs.subset_of(ids.to_set()));
    vstd::set_lib::lemma_len_subset(vs, ids.to_set());
    assert forall|i: int, j: int| 0 <= i < p.len() && 0 <= j < p.len() && i != j implies p[i] != p[j] by {
        if p[i] == p[j] {
            let a = if i < j { i } else { j };
            let b = if i < j { j } else { i };
            let q = p.subrange(a + 1, b + 1);
            assert forall|t: int| 0 <= t < q.len() - 1 implies has_edge(g, #[trigger] q[t], q[t + 1]) by {
                assert(q[t] == p[a + 1 + t] && q[t + 1] == p[a + 2 + t]);
            }
            assert(is_path(g, q));
            assert(q[0] == p[a + 1]);
            assert(q.last() == p[b]);
            assert(reaches(g, p[a + 1], p[a]));
            assert(has_edge(g, p[a], p[a + 1]));
            let k = choose|k: int| 0 <= k < g.len() && #[trigger] g[k] == (p[a], p[a + 1]);
            assert(!reaches(g, g[k].1, g[k].0));
        }
    }
    assert(p.no_duplicates());
    p.unique_seq_to_set();
    assert(p.to_set().subset_of(vs));
    vstd::set_lib::lemma_len_subset(p.to_set(), vs);
}

proof fn lemma_connected_le_ids(ids: Seq<Id>, g: Graph)
    ensures
        connected_set(ids, g).finite(),
        connected_set(ids, g).len() <= ids.len(),
{
    vstd::seq_lib::seq_to_set_is_finite(ids);
    ids.lemma_cardinality_of_set();
    assert(connected_set(ids, g).subset_of(ids.to_set()));
    vstd::set_lib::lemma_len_subset(connected_set(ids, g), ids.to_set());
}

/// In a DAG a layer is shorter than the number of cards, so it never reaches
/// the counter's cap.
proof fn lemma_layer_bound(ids: Seq<Id>, g: Graph, m: Map<Id, nat>, x: Id)
    requires
        short_walks(ids, g),
        witnessed(ids, g, m),
        m.contains_key(x),
    ensures
        m[x] + 1 <= ids.len(),
        m[x] < usize::MAX,
        succ_capped(m[x]) == m[x] + 1,
{
    let p = choose|p: Seq<Id>| card_walk(ids, g, p) && #[trigger] p.last() == x && p.len() == m[x] + 1;
    reveal(short_walks);
    assert(card_walk(ids, g, p));
}

/// In a DAG no walk through the cards repeats a card, so none is longer than
/// the card list.
proof fn lemma_short_walks(ids: Seq<Id>, g: Graph)
    requires
        acyclic(g),
        ids.len() <= usize::MAX,
    ensures
        short_walks(ids, g),
{
    reveal(short_walks);
    assert forall|p: Seq<Id>| #[trigger] card_walk(ids, g, p) implies p.len() <= ids.len() by {
        lemma_walk_is_short(ids, g, p);
        lemma_connected_le_ids(ids, g);
    }
}

proof fn lemma_connected_count(ids: Seq<Id>, g: Graph)
    ensures
        connected_set(ids, g).len() <= connected_count(ids, g),
{
    let f = ids.filter(is_touched(ids, g));
    f.lemma_cardinality_of_set();
    assert forall|x: Id| #[trigger] connected_set(ids, g).contains(x) implies f.to_set().contains(x) by {
        let i = choose|i: int| 0 <= i < ids.len() && ids[i] == x;
        ids.lemma_filter_contains(is_touched(ids, g), i);
    }
    vstd::seq_lib::seq_to_set_is_finite(f);
    vstd::set_lib::lemma_len_subset(connected_set(ids, g), f.to_set());
}

proof fn lemma_edge_goes_right(ids: Seq<Id>, g: Graph, fl: Map<Id, nat>, passes: nat, k: int)
    requires
        acyclic(g),
        ids.len() <= usize::MAX,
        fl.dom() == connected_set(ids, g),
        witnessed(ids, g, fl),
        stable(g, fl) || lower(ids, g, fl, 1 + passes),
        connected_set(ids, g).len() <= passes,
        0 <= k < g.len(),
        is_valid(ids, g[k]),
    ensures
        fl[g[k].1] >= fl[g[k].0] + 1,
{
    let vs = connected_set(ids, g);
    let f = g[k].0;
    let t = g[k].1;
    assert(touched(ids, g, f) && touched(ids, g, t));
    assert(fl.contains_key(f) && fl.contains_key(t));
    if !stable(g, fl) {
        let p = choose|p: Seq<Id>| card_walk(ids, g, p) && #[trigger] p.last() == f && p.len() == fl[f] + 1;
        lemma_walk_is_short(ids, g, p);
        let q = p.push(t);
        assert(has_edge(g, f, t));
        assert forall|i: int| 0 <= i < q.len() - 1 implies has_edge(g, #[trigger] q[i], q[i + 1]) by {
            if i < p.len() - 1 {
                assert(q[i] == p[i] && q[i + 1] == p[i + 1]);
            } else {
                assert(q[i] == f && q[i + 1] == t);
            }
        }
        assert forall|i: int| 0 <= i < q.len() implies vs.contains(#[trigger] q[i]) by {
            if i < p.len() {
                assert(q[i] == p[i]);
            }
        }
        assert(card_walk(ids, g, q));
        assert(q.last() == t);
        assert(q.len() <= 1 + passes);
    }
}

/// Prerequisites left, dependents right: when the dependencies form a DAG,
/// every edge between two cards goes from a column to one strictly to its right.
pub proof fn lemma_columns_follow_edges(ids: Seq<Id>, g: Graph)
    requires
        acyclic(g),
        ids.len() <= usize::MAX,
    ensures
        forall|k: int|
            0 <= k < g.len() && is_valid(ids, #[trigger] g[k]) ==> column_of(ids, g, g[k].0)
                < column_of(ids, g, g[k].1),
{
    let vs = connected_set(ids, g);
    let init = initial_layers(ids, g);
    assert(init.dom() =~= vs);
    assert forall|x: Id| #[trigger] init.contains_key(x) implies exists|p: Seq<Id>|
        card_walk(ids, g, p) && #[trigger] p.last() == x && p.len() == init[x] + 1 by {
        let p = seq![x];
        assert(is_path(g, p));
        assert(card_walk(ids, g, p));
        assert(p.last() == x);
    }
    assert forall|p: Seq<Id>| card_walk(ids, g, p) && p.len() <= 1 implies init.contains_key(#[trigger] p.last()) && init[p.last()] + 1 >= p.len() by {
        assert(vs.contains(p[0]));
    }
    let n = connected_count(ids, g);
    let passes: nat = if n == 0 { 1 } else { n };
    lemma_short_walks(ids, g);
    lemma_layers_after(ids, g, init, 1, passes);
    let fl = final_layers(ids, g);
    lemma_connected_count(ids, g);
    assert forall|k: int| 0 <= k < g.len() && is_valid(ids, #[trigger] g[k]) implies column_of(ids, g, g[k].0)
        < column_of(ids, g, g[k].1) by {
        lemma_edge_goes_right(ids, g, fl, passes, k);
        assert(touched(ids, g, g[k].0) && touched(ids, g, g[k].1));
        lemma_layer_bound(ids, g, fl, g[k].0);
        lemma_layer_bound(ids, g, fl, g[k].1);
    }
}

/// Cards without dependencies sit in a column to the left of every card with
/// some, when there are both.
pub proof fn lemma_isolated_on_the_left(ids: Seq<Id>, g: Graph, x: Id, y: Id)
    requires
        has_leftover(ids, g),
        !touched(ids, g, x),
        touched(ids, g, y),
    ensures
        column_of(ids, g, x) == 0,
        column_of(ids, g, x) < column_of(ids, g, y),
{
}

} // verus!
