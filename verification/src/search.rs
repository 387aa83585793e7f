//! The search for quintuples of pairwise disjoint masks, in one thread and
//! spread over a pool of workers.

use rayon::iter::IntoParallelIterator;
use rayon::iter::ParallelIterator;
use crate::filter::strictly_ascending;
use crate::search_proofs::{all_sound, complete, distinct_sets, lemma_found};
use vstd::prelude::*;
use vstd::seq_lib::lemma_multiset_commutative;

verus! {

/// A selection of up to five candidates, taken at strictly increasing places.
///
/// It carries what the next stage needs: the union of the masks chosen so
/// far, the first place that may be chosen next, and the places and masks
/// chosen. The slots that are not yet filled hold zero.
#[derive(Clone, Copy, Debug)]
pub struct Partial {
    /// The union of the masks chosen so far.
    pub acc: u32,
    /// The first place that may be chosen next.
    pub next: usize,
    /// How many candidates were chosen.
    pub len: usize,
    /// The place of the first candidate chosen.
    pub i0: usize,
    /// The place of the second.
    pub i1: usize,
    /// The place of the third.
    pub i2: usize,
    /// The place of the fourth.
    pub i3: usize,
    /// The place of the fifth.
    pub i4: usize,
    /// The mask of the first candidate chosen.
    pub m0: u32,
    /// The mask of the second.
    pub m1: u32,
    /// The mask of the third.
    pub m2: u32,
    /// The mask of the fourth.
    pub m3: u32,
    /// The mask of the fifth.
    pub m4: u32,
}

/// The selection that holds nothing yet.
pub open spec fn root() -> Partial {
    Partial {
        acc: 0,
        next: 0,
        len: 0,
        i0: 0,
        i1: 0,
        i2: 0,
        i3: 0,
        i4: 0,
        m0: 0,
        m1: 0,
        m2: 0,
        m3: 0,
        m4: 0,
    }
}

/// The selection `p` with the candidate at place `t`, whose mask is `x`, added.
pub open spec fn grown(p: Partial, t: usize, x: u32) -> Partial {
    Partial {
        acc: p.acc | x,
        next: (t + 1) as usize,
        len: (p.len + 1) as usize,
        i0: if p.len == 0 { t } else { p.i0 },
        i1: if p.len == 1 { t } else { p.i1 },
        i2: if p.len == 2 { t } else { p.i2 },
        i3: if p.len == 3 { t } else { p.i3 },
        i4: if p.len == 4 { t } else { p.i4 },
        m0: if p.len == 0 { x } else { p.m0 },
        m1: if p.len == 1 { x } else { p.m1 },
        m2: if p.len == 2 { x } else { p.m2 },
        m3: if p.len == 3 { x } else { p.m3 },
        m4: if p.len == 4 { x } else { p.m4 },
    }
}

/// The selections that add to `p` one candidate at a place from `p.next` up to,
/// but not including, `hi`, and whose mask shares no letter with those of
/// `p`; by ascending place.
pub open spec fn extensions(s: Seq<u32>, p: Partial, hi: int) -> Seq<Partial>
    decreases hi,
{
    if hi <= p.next || hi > s.len() || p.len >= 5 {
        Seq::empty()
    } else {
        let rest = extensions(s, p, hi - 1);
        if p.acc & s[hi - 1] == 0 {
            rest.push(grown(p, (hi - 1) as usize, s[hi - 1]))
        } else {
            rest
        }
    }
}

/// All the selections that add one compatible candidate to `p`.
pub open spec fn children(s: Seq<u32>, p: Partial) -> Seq<Partial> {
    extensions(s, p, s.len() as int)
}

/// One stage of the search: the children of each selection, in turn.
pub open spec fn expand(s: Seq<u32>, ps: Seq<Partial>) -> Seq<Partial>
    decreases ps.len(),
{
    if ps.len() == 0 {
        Seq::empty()
    } else {
        expand(s, ps.drop_last()) + children(s, ps.last())
    }
}

/// `k` stages of the search, one after the other.
pub open spec fn expand_times(s: Seq<u32>, ps: Seq<Partial>, k: nat) -> Seq<Partial>
    decreases k,
{
    if k == 0 {
        ps
    } else {
        expand_times(s, expand(s, ps), (k - 1) as nat)
    }
}

/// The complete selections over the candidates `s`: five stages from nothing.
pub open spec fn quintuples(s: Seq<u32>) -> Seq<Partial> {
    expand_times(s, seq![root()], 5)
}

/// The five masks of a selection.
pub open spec fn masks(p: Partial) -> Seq<u32> {
    seq![p.m0, p.m1, p.m2, p.m3, p.m4]
}

/// The masks of each selection.
pub open spec fn tuples(ps: Seq<Partial>) -> Seq<Seq<u32>> {
    ps.map_values(|p: Partial| masks(p))
}

/// The solutions over the candidates `s`, in the order of their places.
pub open spec fn solutions(s: Seq<u32>) -> Seq<Seq<u32>> {
    tuples(quintuples(s))
}

/// What a list of solutions holds, each as the sequence of its five masks.
pub open spec fn views(r: Seq<[u32; 5]>) -> Seq<Seq<u32>> {
    r.map_values(|a: [u32; 5]| a@)
}

/// A stage spreads over concatenation.
pub proof fn lemma_expand_concat(s: Seq<u32>, a: Seq<Partial>, b: Seq<Partial>)
    ensures
        expand(s, a + b) == expand(s, a) + expand(s, b),
    decreases b.len(),
{
    if b.len() == 0 {
        assert(a + b =~= a);
        assert(expand(s, a) + expand(s, b) =~= expand(s, a));
    } else {
        assert((a + b).drop_last() =~= a + b.drop_last());
        assert((a + b).last() == b.last());
        lemma_expand_concat(s, a, b.drop_last());
        assert(expand(s, a + b) =~= expand(s, a) + expand(s, b));
    }
}

/// Several stages spread over concatenation.
pub proof fn lemma_expand_times_concat(s: Seq<u32>, a: Seq<Partial>, b: Seq<Partial>, k: nat)
    ensures
        expand_times(s, a + b, k) == expand_times(s, a, k) + expand_times(s, b, k),
    decreases k,
{
    if k > 0 {
        lemma_expand_concat(s, a, b);
        lemma_expand_times_concat(s, expand(s, a), expand(s, b), (k - 1) as nat);
    }
}

/// A stage on one selection gives its children.
pub proof fn lemma_expand_one(s: Seq<u32>, p: Partial)
    ensures
        expand(s, seq![p]) == children(s, p),
{
    reveal_with_fuel(expand, 2);
    assert(seq![p].drop_last() =~= Seq::<Partial>::empty());
    assert(expand(s, seq![p]) =~= children(s, p));
}

/// Stages on nothing give nothing.
pub proof fn lemma_expand_times_empty(s: Seq<u32>, k: nat)
    ensures
        expand_times(s, Seq::empty(), k) == Seq::<Partial>::empty(),
    decreases k,
{
    if k > 0 {
        lemma_expand_times_empty(s, (k - 1) as nat);
    }
}

/// A function on sequences that spreads over concatenation takes
/// rearrangements to rearrangements.
pub proof fn lemma_rearranged<A, B>(f: spec_fn(Seq<A>) -> Seq<B>, a: Seq<A>, b: Seq<A>)
    requires
        forall|x: Seq<A>, y: Seq<A>| #[trigger] f(x + y) == f(x) + f(y),
        a.to_multiset() == b.to_multiset(),
    ensures
        f(a).to_multiset() == f(b).to_multiset(),
    decreases a.len(),
{
    a.to_multiset_ensures();
    b.to_multiset_ensures();
    if a.len() == 0 {
        assert(a =~= b);
    } else {
        let x = a.last();
        let a1 = a.drop_last();
        assert(a =~= a1.push(x));
        a1.to_multiset_ensures();
        assert(a.contains(x));
        assert(a.to_multiset().count(x) > 0);
        assert(b.to_multiset().count(x) > 0);
        assert(b.contains(x));
        let j = choose|j: int| 0 <= j < b.len() && b[j] == x;
        let b1 = b.remove(j);
        assert(a1.to_multiset() =~= a.to_multiset().remove(x));
        assert(a1.to_multiset() =~= b1.to_multiset());
        lemma_rearranged(f, a1, b1);
        let l = b.take(j);
        let r = b.skip(j + 1);
        assert(b =~= (l + seq![x]) + r);
        assert(b1 =~= l + r);
        assert(a =~= a1 + seq![x]);
        assert(f(b) == (f(l) + f(seq![x])) + f(r));
        assert(f(b1) == f(l) + f(r));
        assert(f(a) == f(a1) + f(seq![x]));
        lemma_multiset_commutative(f(l) + f(seq![x]), f(r));
        lemma_multiset_commutative(f(l), f(seq![x]));
        lemma_multiset_commutative(f(l), f(r));
        lemma_multiset_commutative(f(a1), f(seq![x]));
        assert(f(a).to_multiset() =~= f(b).to_multiset());
    }
}

/// A stage takes rearrangements to rearrangements.
pub proof fn lemma_expand_rearranged(s: Seq<u32>, a: Seq<Partial>, b: Seq<Partial>)
    requires
        a.to_multiset() == b.to_multiset(),
    ensures
        expand(s, a).to_multiset() == expand(s, b).to_multiset(),
{
    let f = |ps: Seq<Partial>| expand(s, ps);
    assert forall|x: Seq<Partial>, y: Seq<Partial>| #[trigger] f(x + y) == f(x) + f(y) by {
        lemma_expand_concat(s, x, y);
    }
    lemma_rearranged(f, a, b);
}

/// Reading off the masks takes rearrangements to rearrangements.
pub proof fn lemma_tuples_rearranged(a: Seq<Partial>, b: Seq<Partial>)
    requires
        a.to_multiset() == b.to_multiset(),
    ensures
        tuples(a).to_multiset() == tuples(b).to_multiset(),
{
    let f = |ps: Seq<Partial>| tuples(ps);
    assert forall|x: Seq<Partial>, y: Seq<Partial>| #[trigger] f(x + y) == f(x) + f(y) by {
        assert(tuples(x + y) =~= tuples(x) + tuples(y));
    }
    lemma_rearranged(f, a, b);
}

impl Partial {
    /// The selection that holds nothing yet.
    pub fn new() -> (p: Partial)
        ensures
            p == root(),
    {
        Partial {
            acc: 0,
            next: 0,
            len: 0,
            i0: 0,
            i1: 0,
            i2: 0,
            i3: 0,
            i4: 0,
            m0: 0,
            m1: 0,
            m2: 0,
            m3: 0,
            m4: 0,
        }
    }

    /// Adds the candidate at place `t`, whose mask is `x`.
    pub fn grow(self, t: usize, x: u32) -> (q: Partial)
        requires
            self.len < 5,
            t < usize::MAX,
        ensures
            q == grown(self, t, x),
    {
        let mut q = self;
        q.acc = self.acc | x;
        q.next = t + 1;
        q.len = self.len + 1;
        if self.len == 0 {
            q.i0 = t;
            q.m0 = x;
        } else if self.len == 1 {
            q.i1 = t;
            q.m1 = x;
        } else if self.len == 2 {
            q.i2 = t;
            q.m2 = x;
        } else if self.len == 3 {
            q.i3 = t;
            q.m3 = x;
        } else {
            q.i4 = t;
            q.m4 = x;
        }
        q
    }

    /// The five masks of the selection.
    pub fn tuple(self) -> (r: [u32; 5])
        ensures
            r@ == masks(self),
    {
        let r: [u32; 5] = [self.m0, self.m1, self.m2, self.m3, self.m4];
        proof {
            assert(r@ =~= masks(self));
        }
        r
    }
}

/// All the selections that add one compatible candidate to `p`, by ascending
/// place.
pub fn extend(candidates: &[u32], p: Partial) -> (r: Vec<Partial>)
    ensures
        r@ == children(candidates@, p),
{
    let mut out: Vec<Partial> = Vec::new();
    if p.len >= 5 {
        return out;
    }
    let mut t: usize = p.next;
    while t < candidates.len()
        invariant
            p.len < 5,
            p.next <= t,
            t == p.next || t <= candidates@.len(),
            out@ == extensions(candidates@, p, t as int),
        decreases candidates.len() - t,
    {
        let x: u32 = candidates[t];
        if p.acc & x == 0 {
            out.push(p.grow(t, x));
        }
        t += 1;
    }
    out
}

/// Appends to `out` every complete selection that extends `p`, in the order
/// of the places chosen.
fn descend(candidates: &[u32], p: Partial, out: &mut Vec<[u32; 5]>)
    requires
        p.len <= 5,
    ensures
        views(final(out)@) == views(old(out)@) + tuples(
            expand_times(candidates@, seq![p], (5 - p.len) as nat),
        ),
    decreases 5 - p.len,
{
    let ghost before = views(out@);
    if p.len == 5 {
        out.push(p.tuple());
        proof {
            assert(views(out@) =~= before + tuples(seq![p]));
        }
        return;
    }
    let ghost k: nat = (4 - p.len) as nat;
    let mut t: usize = p.next;
    proof {
        lemma_expand_times_empty(candidates@, k);
        assert(before + tuples(Seq::<Partial>::empty()) =~= before);
    }
    while t < candidates.len()
        invariant
            p.len < 5,
            k == 4 - p.len,
            p.next <= t,
            t == p.next || t <= candidates@.len(),
            views(out@) == before + tuples(
                expand_times(candidates@, extensions(candidates@, p, t as int), k),
            ),
        decreases candidates.len() - t,
    {
        let x: u32 = candidates[t];
        if p.acc & x == 0 {
            let q = p.grow(t, x);
            descend(candidates, q, out);
            proof {
                let e = extensions(candidates@, p, t as int);
                assert(extensions(candidates@, p, t + 1) == e.push(q));
                assert(e.push(q) =~= e + seq![q]);
                lemma_expand_times_concat(candidates@, e, seq![q], k);
                let a = expand_times(candidates@, e, k);
                let b = expand_times(candidates@, seq![q], k);
                assert(tuples(a + b) =~= tuples(a) + tuples(b));
                assert((before + tuples(a)) + tuples(b) =~= before + (tuples(a) + tuples(b)));
            }
        }
        t += 1;
    }
    proof {
        assert(extensions(candidates@, p, t as int) == children(candidates@, p));
        lemma_expand_one(candidates@, p);
    }
}

/// Finds every set of five candidates whose masks are pairwise disjoint, in
/// one thread.
///
/// The candidates of a solution stand at strictly increasing places, and the
/// solutions come in the order of those places. Every solution is sound,
/// every choice of five compatible candidates is found, and among distinct
/// candidates in ascending order no two solutions hold the same five masks.
pub fn find_solutions(candidates: &Vec<u32>) -> (r: Vec<[u32; 5]>)
    ensures
        views(r@) == solutions(candidates@),
        all_sound(candidates@, views(r@)),
        complete(candidates@, views(r@)),
        strictly_ascending(candidates@) ==> distinct_sets(views(r@)),
{
    let mut out: Vec<[u32; 5]> = Vec::new();
    let _count: usize = candidates.len();
    descend(candidates.as_slice(), Partial::new(), &mut out);
    proof {
        assert(views(Seq::<[u32; 5]>::empty()) + solutions(candidates@) =~= solutions(
            candidates@,
        ));
        lemma_found(candidates@, views(out@));
    }
    out
}

/// Runs one stage of the search on a pool of workers.
///
/// Calls rayon's `into_par_iter`, `flat_map` and `collect` on the selections,
/// with `extend` as the function applied to each. The contract says that what
/// is collected holds the children of every selection, each as often as the
/// stage yields it; it says nothing of their order.
#[verifier::external_body]
fn fan_out(candidates: &[u32], partials: Vec<Partial>) -> (r: Vec<Partial>)
    ensures
        r@.to_multiset() == expand(candidates@, partials@).to_multiset(),
{
    partials.into_par_iter().flat_map(|p| extend(candidates, p)).collect()
}

/// Reads the five masks off each selection.
pub fn to_tuples(partials: &Vec<Partial>) -> (r: Vec<[u32; 5]>)
    ensures
        views(r@) == tuples(partials@),
{
    let mut out: Vec<[u32; 5]> = Vec::new();
    let mut t: usize = 0;
    while t < partials.len()
        invariant
            t <= partials@.len(),
            views(out@) == tuples(partials@.take(t as int)),
        decreases partials.len() - t,
    {
        let ghost done = out@;
        out.push(partials[t].tuple());
        proof {
            assert(partials@.take(t + 1) =~= partials@.take(t as int).push(partials@[t as int]));
            let prefix = partials@.take(t as int);
            assert(views(done.push(out@.last())) =~= views(done).push(out@.last()@));
            assert(tuples(prefix.push(partials@[t as int])) =~= tuples(prefix).push(
                masks(partials@[t as int]),
            ));
        }
        t += 1;
    }
    proof {
        assert(partials@.take(t as int) =~= partials@);
    }
    out
}

/// Finds every set of five candidates whose masks are pairwise disjoint, on a
/// pool of workers.
///
/// The first candidates are listed, and four stages then add one compatible
/// candidate each, every stage spread over the workers. The result holds the
/// solutions of `find_solutions`, each as often as there; their order is left
/// open. So here too every solution is sound, every choice of five
/// compatible candidates is found, and among distinct candidates in
/// ascending order no two solutions hold the same five masks.
pub fn find_solutions1(candidates: &[u32]) -> (r: Vec<[u32; 5]>)
    ensures
        views(r@).to_multiset() == solutions(candidates@).to_multiset(),
        all_sound(candidates@, views(r@)),
        complete(candidates@, views(r@)),
        strictly_ascending(candidates@) ==> distinct_sets(views(r@)),
{
    let ghost s = candidates@;
    let _count: usize = candidates.len();
    let firsts = extend(candidates, Partial::new());
    proof {
        lemma_expand_one(s, root());
    }
    let ghost e1 = expand(s, seq![root()]);
    let pairs = fan_out(candidates, firsts);
    let ghost e2 = expand(s, e1);
    let triples = fan_out(candidates, pairs);
    let ghost e3 = expand(s, e2);
    proof {
        lemma_expand_rearranged(s, pairs@, e2);
    }
    let fours = fan_out(candidates, triples);
    let ghost e4 = expand(s, e3);
    proof {
        lemma_expand_rearranged(s, triples@, e3);
    }
    let fives = fan_out(candidates, fours);
    let ghost e5 = expand(s, e4);
    proof {
        lemma_expand_rearranged(s, fours@, e4);
        assert(quintuples(s) == e5) by {
            reveal_with_fuel(expand_times, 6);
        }
        lemma_tuples_rearranged(fives@, e5);
    }
    let found = to_tuples(&fives);
    proof {
        lemma_found(s, views(found@));
    }
    found
}

} // verus!
