//! Sorting ids in string order.
use vstd::prelude::*;

use crate::model::Id;
use crate::text::chars_of;

verus! {

/// `a` comes before `b` in string order: compared character by character
/// (by code point, which is the byte order of their UTF-8), a proper prefix first.
pub open spec fn lex_lt(a: Seq<char>, b: Seq<char>) -> bool
    decreases a.len(),
{
    if a.len() == 0 {
        b.len() > 0
    } else if b.len() == 0 {
        false
    } else if a[0] != b[0] {
        (a[0] as u32) < (b[0] as u32)
    } else {
        lex_lt(a.drop_first(), b.drop_first())
    }
}

/// `a` is `b` or comes before it.
pub open spec fn lex_le(a: Seq<char>, b: Seq<char>) -> bool {
    a == b || lex_lt(a, b)
}

/// `s` is in string order.
pub open spec fn is_sorted(s: Seq<Id>) -> bool {
    forall|i: int, j: int| 0 <= i < j < s.len() ==> lex_le(#[trigger] s[i], #[trigger] s[j])
}

/// The views of a sequence of strings.
pub open spec fn string_views(s: Seq<String>) -> Seq<Id> {
    s.map_values(|x: String| x@)
}

pub proof fn lemma_lex_irrefl(a: Seq<char>)
    ensures
        !lex_lt(a, a),
    decreases a.len(),
{
    if a.len() > 0 {
        lemma_lex_irrefl(a.drop_first());
    }
}

pub proof fn lemma_lex_trans(a: Seq<char>, b: Seq<char>, c: Seq<char>)
    requires
        lex_lt(a, b),
        lex_lt(b, c),
    ensures
        lex_lt(a, c),
    decreases a.len(),
{
    if a.len() > 0 && b.len() > 0 && c.len() > 0 && a[0] == b[0] && b[0] == c[0] {
        lemma_lex_trans(a.drop_first(), b.drop_first(), c.drop_first());
    }
}

pub proof fn lemma_lex_total(a: Seq<char>, b: Seq<char>)
    ensures
        a == b || lex_lt(a, b) || lex_lt(b, a),
    decreases a.len(),
{
    if a.len() == 0 && b.len() == 0 {
        assert(a == b);
    } else if a.len() == 0 || b.len() == 0 {
    } else if a[0] == b[0] {
        lemma_lex_total(a.drop_first(), b.drop_first());
        if a.drop_first() == b.drop_first() {
            assert(a == seq![a[0]] + a.drop_first());
            assert(b == seq![b[0]] + b.drop_first());
        }
    } else {
        vstd::utf8::char_u32_cast(a[0], a[0] as u32);
        vstd::utf8::char_u32_cast(b[0], b[0] as u32);
    }
}

pub proof fn lemma_lex_asym(a: Seq<char>, b: Seq<char>)
    requires
        lex_lt(a, b),
    ensures
        !lex_lt(b, a),
{
    if lex_lt(b, a) {
        lemma_lex_trans(a, b, a);
        lemma_lex_irrefl(a);
    }
}

/// A proper prefix comes first: `a` is before every longer string that
/// starts with it.
pub proof fn lemma_lex_prefix_first(a: Seq<char>, b: Seq<char>)
    requires
        b.len() > 0,
    ensures
        lex_lt(a, a + b),
        !lex_lt(a + b, a),
    decreases a.len(),
{
    if a.len() == 0 {
        assert(a + b == b);
    } else {
        assert((a + b)[0] == a[0]);
        assert((a + b).drop_first() == a.drop_first() + b);
        lemma_lex_prefix_first(a.drop_first(), b);
    }
}

/// Otherwise the first position where the two differ decides, by code point.
pub proof fn lemma_lex_first_difference(a: Seq<char>, b: Seq<char>, i: int)
    requires
        0 <= i < a.len(),
        i < b.len(),
        a.take(i) == b.take(i),
        (a[i] as u32) < (b[i] as u32),
    ensures
        lex_lt(a, b),
        !lex_lt(b, a),
    decreases i,
{
    if i == 0 {
        assert(a[0] != b[0]);
    } else {
        assert(a[0] == a.take(i)[0] && b[0] == b.take(i)[0]);
        assert(a.drop_first().take(i - 1) == a.take(i).drop_first());
        assert(b.drop_first().take(i - 1) == b.take(i).drop_first());
        assert(a.drop_first()[i - 1] == a[i] && b.drop_first()[i - 1] == b[i]);
        lemma_lex_first_difference(a.drop_first(), b.drop_first(), i - 1);
    }
}

/// Whether `a` comes before `b` in string order.
pub fn str_lt(a: &str, b: &str) -> (r: bool)
    ensures
        r == lex_lt(a@, b@),
{
    let x = chars_of(a);
    let y = chars_of(b);
    let mut i: usize = 0;
    assert(x@.skip(0) == x@ && y@.skip(0) == y@);
    while i < x.len() && i < y.len()
        invariant
            i <= x.len(),
            i <= y.len(),
            x@ == a@,
            y@ == b@,
            lex_lt(x@, y@) == lex_lt(x@.skip(i as int), y@.skip(i as int)),
        decreases x.len() - i,
    {
        assert(x@.skip(i as int)[0] == x@[i as int]);
        assert(y@.skip(i as int)[0] == y@[i as int]);
        if x[i] != y[i] {
            let r = (x[i] as u32) < (y[i] as u32);
            assert(x@.skip(i as int).len() > 0 && y@.skip(i as int).len() > 0);
            assert(x@.skip(i as int)[0] != y@.skip(i as int)[0]);
            assert(lex_lt(x@.skip(i as int), y@.skip(i as int)) == r);
            return r;
        }
        assert(x@.skip(i as int).drop_first() == x@.skip(i + 1));
        assert(y@.skip(i as int).drop_first() == y@.skip(i + 1));
        i += 1;
    }
    i == x.len() && y.len() > x.len()
}

proof fn lemma_insert_multiset(s: Seq<Id>, p: int, a: Id)
    requires
        0 <= p <= s.len(),
    ensures
        s.insert(p, a).to_multiset() == s.to_multiset().insert(a),
{
    let t = s.insert(p, a);
    assert(t.remove(p) == s);
    vstd::seq_lib::to_multiset_remove(t, p);
    vstd::seq_lib::to_multiset_contains(t, a);
    assert(t[p] == a);
    assert(t.contains(a));
    assert(t.to_multiset().remove(a).insert(a) =~= t.to_multiset());
}

/// `v` in string order.
pub fn sort_strings(v: &Vec<String>) -> (out: Vec<String>)
    ensures
        is_sorted(string_views(out@)),
        string_views(out@).to_multiset() == string_views(v@).to_multiset(),
{
    let mut out: Vec<String> = Vec::new();
    let mut i: usize = 0;
    assert(v@.take(0) == Seq::<String>::empty());
    assert(string_views(out@) =~= Seq::<Id>::empty());
    assert(string_views(v@.take(0)) =~= Seq::<Id>::empty());
    while i < v.len()
        invariant
            i <= v.len(),
            is_sorted(string_views(out@)),
            string_views(out@).to_multiset() == string_views(v@.take(i as int)).to_multiset(),
        decreases v.len() - i,
    {
        let x = v[i].clone();
        let mut p: usize = 0;
        while p < out.len() && !str_lt(x.as_str(), out[p].as_str())
            invariant
                p <= out.len(),
                forall|q: int| 0 <= q < p ==> !lex_lt(x@, #[trigger] out@[q]@),
            decreases out.len() - p,
        {
            p += 1;
        }
        let ghost before = string_views(out@);
        out.insert(p, x);
        proof {
            let now = string_views(out@);
            assert(now == before.insert(p as int, x@));
            assert forall|a: int, b: int| 0 <= a < b < now.len() implies lex_le(
                #[trigger] now[a],
                #[trigger] now[b],
            ) by {
                if a < p && b < p {
                    assert(now[a] == before[a] && now[b] == before[b]);
                } else if a > p && b > p {
                    assert(now[a] == before[a - 1] && now[b] == before[b - 1]);
                } else if a < p && b == p {
                    assert(now[a] == out@[a]@);
                    lemma_lex_total(x@, now[a]);
                } else if a < p && b > p {
                    assert(now[a] == before[a] && now[b] == before[b - 1]);
                    assert(!lex_lt(x@, out@[a]@));
                    lemma_lex_total(x@, before[a]);
                    assert(lex_le(before[p as int], before[b - 1]));
                    assert(lex_lt(x@, before[p as int]));
                    if lex_lt(before[a], x@) {
                        lemma_lex_trans(before[a], x@, before[p as int]);
                        if before[p as int] != before[b - 1] {
                            lemma_lex_trans(before[a], before[p as int], before[b - 1]);
                        }
                    } else {
                        assert(before[a] == x@);
                        if before[p as int] != before[b - 1] {
                            lemma_lex_trans(before[a], before[p as int], before[b - 1]);
                        }
                    }
                } else {
                    assert(a == p && b > p);
                    assert(now[a] == x@ && now[b] == before[b - 1]);
                    assert(lex_lt(x@, before[p as int]));
                    assert(lex_le(before[p as int], before[b - 1]));
                    if before[p as int] != before[b - 1] {
                        lemma_lex_trans(x@, before[p as int], before[b - 1]);
                    }
                }
            }
            lemma_insert_multiset(before, p as int, x@);
            assert(v@.take(i + 1) == v@.take(i as int).push(v@[i as int]));
            assert(string_views(v@.take(i + 1)) == string_views(v@.take(i as int)).push(x@));
            vstd::seq_lib::to_multiset_build(string_views(v@.take(i as int)), x@);
        }
        i += 1;
    }
    assert(v@.take(v.len() as int) == v@);
    out
}

} // verus!
