//! What holds of the search: every solution is a choice of five compatible
//! candidates at ascending places, every such choice is a solution, and none
//! comes twice.

use crate::filter::{all_five_letters, strictly_ascending};
use crate::mask::popcount;
use crate::mask_proofs::lemma_popcount_disjoint;
use crate::search::{
    children, expand, expand_times, extensions, grown, masks, quintuples, root, solutions, views,
    Partial,
};
use vstd::prelude::*;
use vstd::seq_lib::lemma_no_dup_in_concat;

verus! {

/// Whether the five places ascend strictly within `s` and each candidate
/// there shares no letter with the ones before it.
pub open spec fn compatible(s: Seq<u32>, i: int, j: int, k: int, l: int, m: int) -> bool {
    &&& 0 <= i < j < k < l < m < s.len()
    &&& s[i] & s[j] == 0
    &&& (s[i] | s[j]) & s[k] == 0
    &&& (s[i] | s[j] | s[k]) & s[l] == 0
    &&& (s[i] | s[j] | s[k] | s[l]) & s[m] == 0
}

/// The selection of the candidates at the five places.
pub open spec fn selection(s: Seq<u32>, i: int, j: int, k: int, l: int, m: int) -> Partial {
    Partial {
        acc: s[i] | s[j] | s[k] | s[l] | s[m],
        next: (m + 1) as usize,
        len: 5,
        i0: i as usize,
        i1: j as usize,
        i2: k as usize,
        i3: l as usize,
        i4: m as usize,
        m0: s[i],
        m1: s[j],
        m2: s[k],
        m3: s[l],
        m4: s[m],
    }
}

/// Whether the five masks are disjoint, each pair of them.
pub open spec fn pairwise_disjoint(a: u32, b: u32, c: u32, d: u32, e: u32) -> bool {
    &&& a & b == 0
    &&& a & c == 0
    &&& a & d == 0
    &&& a & e == 0
    &&& b & c == 0
    &&& b & d == 0
    &&& b & e == 0
    &&& c & d == 0
    &&& c & e == 0
    &&& d & e == 0
}

/// Whether the five masks are a solution over the candidates `s`: the masks of
/// five candidates at strictly ascending places, any two of them disjoint,
/// and with twenty-five letters in all where every candidate has five.
pub open spec fn sound(s: Seq<u32>, q: Seq<u32>) -> bool {
    &&& q.len() == 5
    &&& exists|i: int, j: int, k: int, l: int, m: int|
        #[trigger] compatible(s, i, j, k, l, m) && q == seq![s[i], s[j], s[k], s[l], s[m]]
    &&& pairwise_disjoint(q[0], q[1], q[2], q[3], q[4])
    &&& all_five_letters(s) ==> popcount(q[0] | q[1] | q[2] | q[3] | q[4]) == 25
}

/// Whether everything that was found is a solution.
pub open spec fn all_sound(s: Seq<u32>, found: Seq<Seq<u32>>) -> bool {
    forall|t: int| 0 <= t < found.len() ==> sound(s, #[trigger] found[t])
}

/// Whether every choice of five compatible candidates was found.
pub open spec fn complete(s: Seq<u32>, found: Seq<Seq<u32>>) -> bool {
    forall|i: int, j: int, k: int, l: int, m: int| #[trigger]
        compatible(s, i, j, k, l, m) ==> found.contains(seq![s[i], s[j], s[k], s[l], s[m]])
}

/// Whether no two of the solutions found hold the same five masks.
pub open spec fn distinct_sets(found: Seq<Seq<u32>>) -> bool {
    forall|a: int, b: int|
        0 <= a < found.len() && 0 <= b < found.len() && a != b ==> found[a].to_set()
            != found[b].to_set()
}

/// Whether `p` is a selection of `p.len` candidates of `s` at ascending
/// places, each disjoint from the ones before it, with its union and its
/// next place as they follow from the choice, and zero in the unused slots.
pub open spec fn well_formed(s: Seq<u32>, p: Partial) -> bool {
    &&& p.len <= 5
    &&& if p.len >= 1 {
        p.i0 < s.len() && p.m0 == s[p.i0 as int]
    } else {
        p.i0 == 0 && p.m0 == 0
    }
    &&& if p.len >= 2 {
        p.i0 < p.i1 < s.len() && p.m1 == s[p.i1 as int] && p.m0 & p.m1 == 0
    } else {
        p.i1 == 0 && p.m1 == 0
    }
    &&& if p.len >= 3 {
        p.i1 < p.i2 < s.len() && p.m2 == s[p.i2 as int] && (p.m0 | p.m1) & p.m2 == 0
    } else {
        p.i2 == 0 && p.m2 == 0
    }
    &&& if p.len >= 4 {
        p.i2 < p.i3 < s.len() && p.m3 == s[p.i3 as int] && (p.m0 | p.m1 | p.m2) & p.m3 == 0
    } else {
        p.i3 == 0 && p.m3 == 0
    }
    &&& if p.len >= 5 {
        p.i3 < p.i4 < s.len() && p.m4 == s[p.i4 as int] && (p.m0 | p.m1 | p.m2 | p.m3) & p.m4
            == 0
    } else {
        p.i4 == 0 && p.m4 == 0
    }
    &&& p.acc == union_of(p, p.len as int)
    &&& p.next == next_of(p, p.len as int)
}

/// The union of the first `d` masks of `p`.
pub open spec fn union_of(p: Partial, d: int) -> u32 {
    if d <= 0 {
        0
    } else if d == 1 {
        p.m0
    } else if d == 2 {
        p.m0 | p.m1
    } else if d == 3 {
        p.m0 | p.m1 | p.m2
    } else if d == 4 {
        p.m0 | p.m1 | p.m2 | p.m3
    } else {
        p.m0 | p.m1 | p.m2 | p.m3 | p.m4
    }
}

/// The place after the `d`-th choice of `p`.
pub open spec fn next_of(p: Partial, d: int) -> int {
    if d <= 0 {
        0
    } else if d == 1 {
        p.i0 + 1
    } else if d == 2 {
        p.i1 + 1
    } else if d == 3 {
        p.i2 + 1
    } else if d == 4 {
        p.i3 + 1
    } else {
        p.i4 + 1
    }
}

/// The selection of the first `d` choices of `p`.
pub open spec fn prefix(p: Partial, d: int) -> Partial {
    Partial {
        acc: union_of(p, d),
        next: next_of(p, d) as usize,
        len: d as usize,
        i0: if d >= 1 { p.i0 } else { 0 },
        i1: if d >= 2 { p.i1 } else { 0 },
        i2: if d >= 3 { p.i2 } else { 0 },
        i3: if d >= 4 { p.i3 } else { 0 },
        i4: if d >= 5 { p.i4 } else { 0 },
        m0: if d >= 1 { p.m0 } else { 0 },
        m1: if d >= 2 { p.m1 } else { 0 },
        m2: if d >= 3 { p.m2 } else { 0 },
        m3: if d >= 4 { p.m3 } else { 0 },
        m4: if d >= 5 { p.m4 } else { 0 },
    }
}

/// Whether every selection of `ps` is well formed and holds `d` choices.
pub open spec fn stage(s: Seq<u32>, ps: Seq<Partial>, d: int) -> bool {
    forall|a: int| 0 <= a < ps.len() ==> well_formed(s, #[trigger] ps[a]) && ps[a].len == d
}

/// Whether the first `d` places of `p` come before those of `q`: where they
/// first differ, the place of `p` is the smaller.
pub open spec fn places_before(p: Partial, q: Partial, d: int) -> bool {
    ||| d >= 1 && p.i0 < q.i0
    ||| d >= 2 && p.i0 == q.i0 && p.i1 < q.i1
    ||| d >= 3 && p.i0 == q.i0 && p.i1 == q.i1 && p.i2 < q.i2
    ||| d >= 4 && p.i0 == q.i0 && p.i1 == q.i1 && p.i2 == q.i2 && p.i3 < q.i3
    ||| d >= 5 && p.i0 == q.i0 && p.i1 == q.i1 && p.i2 == q.i2 && p.i3 == q.i3 && p.i4 < q.i4
}

/// Whether the selections come in the order of their first `d` places.
pub open spec fn in_order(ps: Seq<Partial>, d: int) -> bool {
    forall|a: int, b: int| 0 <= a < b < ps.len() ==> places_before(ps[a], ps[b], d)
}

/// Adding a compatible candidate to a well-formed selection gives a
/// well-formed selection whose prefix is the one it grew from.
pub proof fn lemma_grown(s: Seq<u32>, p: Partial, t: int)
    requires
        well_formed(s, p),
        p.len < 5,
        p.next <= t < s.len() <= usize::MAX,
        p.acc & s[t] == 0,
    ensures
        well_formed(s, grown(p, t as usize, s[t])),
        grown(p, t as usize, s[t]).len == p.len + 1,
        grown(p, t as usize, s[t]).next == t + 1,
        prefix(grown(p, t as usize, s[t]), p.len as int) == p,
{
    let x = s[t];
    assert(0u32 | x == x) by (bit_vector);
}

/// The extensions of a well-formed selection are well formed, have it as
/// their prefix, and come by strictly ascending place.
pub proof fn lemma_extensions(s: Seq<u32>, p: Partial, hi: int)
    requires
        well_formed(s, p),
        s.len() <= usize::MAX,
    ensures
        stage(s, extensions(s, p, hi), p.len + 1),
        forall|a: int|
            0 <= a < extensions(s, p, hi).len() ==> prefix(
                #[trigger] extensions(s, p, hi)[a],
                p.len as int,
            ) == p && extensions(s, p, hi)[a].next <= hi,
        forall|a: int, b: int|
            0 <= a < b < extensions(s, p, hi).len() ==> extensions(s, p, hi)[a].next
                < extensions(s, p, hi)[b].next,
    decreases hi,
{
    if !(hi <= p.next || hi > s.len() || p.len >= 5) {
        lemma_extensions(s, p, hi - 1);
        if p.acc & s[hi - 1] == 0 {
            lemma_grown(s, p, hi - 1);
        }
    }
}

/// A stage keeps the selections well formed and distinct, and each result
/// has its prefix among the selections the stage began with.
pub proof fn lemma_expand(s: Seq<u32>, ps: Seq<Partial>, d: int)
    requires
        s.len() <= usize::MAX,
        0 <= d,
        stage(s, ps, d),
        ps.no_duplicates(),
        in_order(ps, d) || ps.len() <= 1,
    ensures
        stage(s, expand(s, ps), d + 1),
        in_order(expand(s, ps), d + 1),
        forall|a: int|
            0 <= a < expand(s, ps).len() ==> ps.contains(prefix(#[trigger] expand(s, ps)[a], d)),
        expand(s, ps).no_duplicates(),
    decreases ps.len(),
{
    if ps.len() > 0 {
        let front = ps.drop_last();
        let last = ps.last();
        let a = expand(s, front);
        let b = children(s, last);
        lemma_expand(s, front, d);
        lemma_extensions(s, last, s.len() as int);
        assert forall|i: int, j: int| 0 <= i < a.len() && 0 <= j < b.len() implies a[i] != b[j] by {
            if a[i] == b[j] {
                assert(front.contains(prefix(a[i], d)));
                let k = choose|k: int| 0 <= k < front.len() && front[k] == prefix(a[i], d);
                assert(ps[k] == ps[ps.len() - 1]);
            }
        }
        lemma_no_dup_in_concat(a, b);
        assert forall|i: int, j: int| 0 <= i < j < expand(s, ps).len() implies places_before(
            expand(s, ps)[i],
            expand(s, ps)[j],
            d + 1,
        ) by {
            let x = expand(s, ps)[i];
            let y = expand(s, ps)[j];
            if j < a.len() {
                assert(x == a[i] && y == a[j]);
            } else if i >= a.len() {
                assert(x == b[i - a.len()] && y == b[j - a.len()]);
                assert(prefix(x, d) == last && prefix(y, d) == last);
                assert(x.next < y.next);
                assert(well_formed(s, x) && well_formed(s, y));
            } else {
                assert(x == a[i] && y == b[j - a.len()]);
                assert(front.contains(prefix(x, d)));
                let k = choose|k: int| 0 <= k < front.len() && front[k] == prefix(x, d);
                assert(ps[k] == prefix(x, d));
                assert(prefix(y, d) == ps[ps.len() - 1]);
                assert(places_before(ps[k], ps[ps.len() - 1], d));
            }
        }
        assert forall|i: int| 0 <= i < expand(s, ps).len() implies ps.contains(
            prefix(#[trigger] expand(s, ps)[i], d),
        ) by {
            if i < a.len() {
                assert(front.contains(prefix(a[i], d)));
                let k = choose|k: int| 0 <= k < front.len() && front[k] == prefix(a[i], d);
                assert(ps[k] == prefix(a[i], d));
            } else {
                assert(prefix(b[i - a.len()], d) == ps[ps.len() - 1]);
            }
        }
    }
}

/// The complete selections are well formed, hold five choices each, and
/// come in the order of their places, so that none of them comes twice.
pub proof fn lemma_quintuples(s: Seq<u32>)
    requires
        s.len() <= usize::MAX,
    ensures
        stage(s, quintuples(s), 5),
        in_order(quintuples(s), 5),
        quintuples(s).no_duplicates(),
{
    let e0 = seq![root()];
    let e1 = expand(s, e0);
    let e2 = expand(s, e1);
    let e3 = expand(s, e2);
    let e4 = expand(s, e3);
    assert(well_formed(s, root()));
    lemma_expand(s, e0, 0);
    lemma_expand(s, e1, 1);
    lemma_expand(s, e2, 2);
    lemma_expand(s, e3, 3);
    lemma_expand(s, e4, 4);
    assert(quintuples(s) == expand(s, e4)) by {
        reveal_with_fuel(expand_times, 6);
    }
}

/// A chain of masks, each disjoint from the union of those before it, is
/// pairwise disjoint.
pub proof fn lemma_chain_disjoint(a: u32, b: u32, c: u32, d: u32, e: u32)
    requires
        a & b == 0,
        (a | b) & c == 0,
        (a | b | c) & d == 0,
        (a | b | c | d) & e == 0,
    ensures
        pairwise_disjoint(a, b, c, d, e),
{
    assert(pairwise_disjoint(a, b, c, d, e)) by (bit_vector)
        requires
            a & b == 0,
            (a | b) & c == 0,
            (a | b | c) & d == 0,
            (a | b | c | d) & e == 0,
    ;
}

/// Every solution is sound: its masks are those of five candidates at
/// strictly ascending places, any two of them share no letter, and where
/// every candidate has five letters their union has twenty-five.
pub proof fn lemma_search_sound(s: Seq<u32>, t: int)
    requires
        s.len() <= usize::MAX,
        0 <= t < solutions(s).len(),
    ensures
        solutions(s)[t].len() == 5,
        ({
            let p = quintuples(s)[t];
            &&& compatible(s, p.i0 as int, p.i1 as int, p.i2 as int, p.i3 as int, p.i4 as int)
            &&& p == selection(s, p.i0 as int, p.i1 as int, p.i2 as int, p.i3 as int, p.i4 as int)
            &&& solutions(s)[t] == masks(p)
        }),
        sound(s, solutions(s)[t]),
{
    lemma_quintuples(s);
    let p = quintuples(s)[t];
    assert(well_formed(s, p) && p.len == 5);
    assert(solutions(s)[t] =~= seq![
        s[p.i0 as int],
        s[p.i1 as int],
        s[p.i2 as int],
        s[p.i3 as int],
        s[p.i4 as int],
    ]);
    lemma_chain_disjoint(p.m0, p.m1, p.m2, p.m3, p.m4);
    if all_five_letters(s) {
        lemma_popcount_disjoint(p.m0, p.m1);
        lemma_popcount_disjoint(p.m0 | p.m1, p.m2);
        lemma_popcount_disjoint(p.m0 | p.m1 | p.m2, p.m3);
        lemma_popcount_disjoint(p.m0 | p.m1 | p.m2 | p.m3, p.m4);
    }
    let q = solutions(s)[t];
    let (i, j, k, l, m) = (p.i0 as int, p.i1 as int, p.i2 as int, p.i3 as int, p.i4 as int);
    assert(compatible(s, i, j, k, l, m) && q == seq![s[i], s[j], s[k], s[l], s[m]]);
    assert(q[0] == p.m0 && q[1] == p.m1 && q[2] == p.m2 && q[3] == p.m3 && q[4] == p.m4);
}

/// An extension by a compatible candidate within the range is among the
/// extensions.
pub proof fn lemma_extensions_hold(s: Seq<u32>, p: Partial, hi: int, t: int)
    requires
        p.len < 5,
        p.next <= t < hi <= s.len(),
        p.acc & s[t] == 0,
    ensures
        extensions(s, p, hi).contains(grown(p, t as usize, s[t])),
    decreases hi,
{
    let e = extensions(s, p, hi);
    if t == hi - 1 {
        assert(e[e.len() - 1] == grown(p, t as usize, s[t]));
    } else {
        lemma_extensions_hold(s, p, hi - 1, t);
        let rest = extensions(s, p, hi - 1);
        let k = choose|k: int| 0 <= k < rest.len() && rest[k] == grown(p, t as usize, s[t]);
        assert(e[k] == grown(p, t as usize, s[t]));
    }
}

/// A stage yields every child of every selection it began with.
pub proof fn lemma_expand_holds(s: Seq<u32>, ps: Seq<Partial>, p: Partial, q: Partial)
    requires
        ps.contains(p),
        children(s, p).contains(q),
    ensures
        expand(s, ps).contains(q),
    decreases ps.len(),
{
    let front = ps.drop_last();
    let a = expand(s, front);
    let b = children(s, ps.last());
    if ps.last() == p {
        let k = choose|k: int| 0 <= k < b.len() && b[k] == q;
        assert(expand(s, ps)[a.len() + k] == q);
    } else {
        let i = choose|i: int| 0 <= i < ps.len() && ps[i] == p;
        assert(front[i] == p);
        lemma_expand_holds(s, front, p, q);
        let k = choose|k: int| 0 <= k < a.len() && a[k] == q;
        assert(expand(s, ps)[k] == q);
    }
}

/// The search is complete: five compatible candidates at strictly ascending
/// places are a solution.
pub proof fn lemma_search_complete(s: Seq<u32>, i: int, j: int, k: int, l: int, m: int)
    requires
        s.len() <= usize::MAX,
        compatible(s, i, j, k, l, m),
    ensures
        quintuples(s).contains(selection(s, i, j, k, l, m)),
        solutions(s).contains(seq![s[i], s[j], s[k], s[l], s[m]]),
{
    let x = s[i];
    assert(0u32 & x == 0 && 0u32 | x == x) by (bit_vector);
    let p0 = root();
    let p1 = grown(p0, i as usize, s[i]);
    let p2 = grown(p1, j as usize, s[j]);
    let p3 = grown(p2, k as usize, s[k]);
    let p4 = grown(p3, l as usize, s[l]);
    let p5 = grown(p4, m as usize, s[m]);
    assert(p5 == selection(s, i, j, k, l, m));
    let e0 = seq![p0];
    let e1 = expand(s, e0);
    let e2 = expand(s, e1);
    let e3 = expand(s, e2);
    let e4 = expand(s, e3);
    let e5 = expand(s, e4);
    let n = s.len() as int;
    assert(e0[0] == p0);
    lemma_extensions_hold(s, p0, n, i);
    lemma_expand_holds(s, e0, p0, p1);
    lemma_extensions_hold(s, p1, n, j);
    lemma_expand_holds(s, e1, p1, p2);
    lemma_extensions_hold(s, p2, n, k);
    lemma_expand_holds(s, e2, p2, p3);
    lemma_extensions_hold(s, p3, n, l);
    lemma_expand_holds(s, e3, p3, p4);
    lemma_extensions_hold(s, p4, n, m);
    lemma_expand_holds(s, e4, p4, p5);
    assert(quintuples(s) == e5) by {
        reveal_with_fuel(expand_times, 6);
    }
    let t = choose|t: int| 0 <= t < e5.len() && e5[t] == p5;
    assert(solutions(s)[t] =~= seq![s[i], s[j], s[k], s[l], s[m]]);
}

/// Among distinct candidates in ascending order no two solutions hold the
/// same five masks: as sets of masks they differ.
pub proof fn lemma_solutions_distinct(s: Seq<u32>, a: int, b: int)
    requires
        s.len() <= usize::MAX,
        strictly_ascending(s),
        0 <= a < solutions(s).len(),
        0 <= b < solutions(s).len(),
        a != b,
    ensures
        solutions(s)[a].to_set() != solutions(s)[b].to_set(),
{
    lemma_quintuples(s);
    let p = quintuples(s)[a];
    let q = quintuples(s)[b];
    let u = solutions(s)[a];
    let v = solutions(s)[b];
    assert(well_formed(s, p) && p.len == 5);
    assert(well_formed(s, q) && q.len == 5);
    assert(p != q);
    if u.to_set() == v.to_set() {
        assert(u[0] == p.m0 && u[1] == p.m1 && u[2] == p.m2 && u[3] == p.m3 && u[4] == p.m4);
        assert(v[0] == q.m0 && v[1] == q.m1 && v[2] == q.m2 && v[3] == q.m3 && v[4] == q.m4);
        assert forall|x: u32| #[trigger] u.contains(x) implies x == q.m0 || x == q.m1 || x == q.m2
            || x == q.m3 || x == q.m4 by {
            assert(u.to_set().contains(x));
            assert(v.to_set().contains(x));
            assert(v.contains(x));
        }
        assert forall|x: u32| #[trigger] v.contains(x) implies x == p.m0 || x == p.m1 || x == p.m2
            || x == p.m3 || x == p.m4 by {
            assert(v.to_set().contains(x));
            assert(u.to_set().contains(x));
            assert(u.contains(x));
        }
        assert(u.contains(u[0]) && u.contains(u[1]) && u.contains(u[2]) && u.contains(u[3])
            && u.contains(u[4]));
        assert(v.contains(v[0]) && v.contains(v[1]) && v.contains(v[2]) && v.contains(v[3])
            && v.contains(v[4]));
        assert(p.m0 < p.m1 < p.m2 < p.m3 < p.m4);
        assert(q.m0 < q.m1 < q.m2 < q.m3 < q.m4);
        assert(p.m0 == q.m0 && p.m1 == q.m1 && p.m2 == q.m2 && p.m3 == q.m3 && p.m4 == q.m4);
        assert(p.i0 == q.i0 && p.i1 == q.i1 && p.i2 == q.i2 && p.i3 == q.i3 && p.i4 == q.i4);
        assert(p == q);
    }
}

/// What a result holds that holds the solutions in any order is a solution
/// as well.
pub proof fn lemma_rearranged_sound(s: Seq<u32>, found: Seq<Seq<u32>>, t: int)
    requires
        s.len() <= usize::MAX,
        found.to_multiset() == solutions(s).to_multiset(),
        0 <= t < found.len(),
    ensures
        solutions(s).contains(found[t]),
        sound(s, found[t]),
{
    let all = solutions(s);
    found.to_multiset_ensures();
    all.to_multiset_ensures();
    assert(found.contains(found[t]));
    assert(found.to_multiset().count(found[t]) > 0);
    assert(all.contains(found[t]));
    let i = choose|i: int| 0 <= i < all.len() && all[i] == found[t];
    lemma_search_sound(s, i);
}

/// Among distinct candidates in ascending order a result that holds the
/// solutions in any order holds no two with the same five masks either.
pub proof fn lemma_rearranged_distinct(s: Seq<u32>, found: Seq<Seq<u32>>, a: int, b: int)
    requires
        s.len() <= usize::MAX,
        strictly_ascending(s),
        found.to_multiset() == solutions(s).to_multiset(),
        0 <= a < found.len(),
        0 <= b < found.len(),
        a != b,
    ensures
        found[a].to_set() != found[b].to_set(),
{
    let all = solutions(s);
    assert forall|i: int, j: int| 0 <= i < all.len() && 0 <= j < all.len() && i != j implies all[i]
        != all[j] by {
        lemma_solutions_distinct(s, i, j);
    }
    all.lemma_multiset_has_no_duplicates();
    found.lemma_multiset_has_no_duplicates_conv();
    found.to_multiset_ensures();
    all.to_multiset_ensures();
    assert(found.contains(found[a]) && found.contains(found[b]));
    assert(found.to_multiset().count(found[a]) > 0 && found.to_multiset().count(found[b]) > 0);
    assert(all.contains(found[a]) && all.contains(found[b]));
    let i = choose|i: int| 0 <= i < all.len() && all[i] == found[a];
    let j = choose|j: int| 0 <= j < all.len() && all[j] == found[b];
    lemma_solutions_distinct(s, i, j);
}

/// A result that holds the solutions in any order holds solutions only, and
/// one for every choice of five compatible candidates; among distinct
/// candidates in ascending order no two of them hold the same five masks.
pub proof fn lemma_found(s: Seq<u32>, found: Seq<Seq<u32>>)
    requires
        s.len() <= usize::MAX,
        found.to_multiset() == solutions(s).to_multiset(),
    ensures
        all_sound(s, found),
        complete(s, found),
        strictly_ascending(s) ==> distinct_sets(found),
{
    assert forall|t: int| 0 <= t < found.len() implies sound(s, #[trigger] found[t]) by {
        lemma_rearranged_sound(s, found, t);
    }
    found.to_multiset_ensures();
    solutions(s).to_multiset_ensures();
    assert forall|i: int, j: int, k: int, l: int, m: int| #[trigger]
        compatible(s, i, j, k, l, m) implies found.contains(
        seq![s[i], s[j], s[k], s[l], s[m]],
    ) by {
        let q = seq![s[i], s[j], s[k], s[l], s[m]];
        lemma_search_complete(s, i, j, k, l, m);
        assert(solutions(s).to_multiset().count(q) > 0);
        assert(found.to_multiset().count(q) > 0);
    }
    if strictly_ascending(s) {
        assert forall|a: int, b: int|
            0 <= a < found.len() && 0 <= b < found.len() && a != b implies found[a].to_set()
            != found[b].to_set() by {
            lemma_rearranged_distinct(s, found, a, b);
        }
    }
}

/// The two engines agree: a result that holds the solutions in any order
/// holds the same solutions as one that holds them in the order of their
/// places, each as often.
pub proof fn lemma_engines_agree(s: Seq<u32>, sequential: Seq<[u32; 5]>, parallel: Seq<[u32; 5]>)
    requires
        views(sequential) == solutions(s),
        views(parallel).to_multiset() == solutions(s).to_multiset(),
    ensures
        views(parallel).to_multiset() == views(sequential).to_multiset(),
        views(parallel).len() == views(sequential).len(),
        forall|q: Seq<u32>| views(parallel).contains(q) <==> views(sequential).contains(q),
{
    views(parallel).to_multiset_ensures();
    views(sequential).to_multiset_ensures();
    assert forall|q: Seq<u32>| views(parallel).contains(q) <==> views(sequential).contains(q) by {
        if views(parallel).contains(q) {
            assert(views(parallel).to_multiset().count(q) > 0);
        }
        if views(sequential).contains(q) {
            assert(views(sequential).to_multiset().count(q) > 0);
        }
    }
}

} // verus!
