//! The bounded best-candidate collection behind k-nearest queries: at
//! most `n` `(distance, point)` pairs, the current worst of which can be
//! read off and evicted when a closer candidate arrives.

use crate::median::lemma_swap_keeps_multiset;
use crate::median::vec_swap;
use vstd::multiset::Multiset;
use vstd::prelude::*;

verus! {

broadcast use
    vstd::seq_lib::group_to_multiset_ensures,
    vstd::multiset::group_multiset_axioms,
;

/// A candidate query answer: a borrowed stored point together with its
/// computed distance from the query.
pub struct HeapElem<'a, T> {
    pub dist: u64,
    pub item: &'a T,
}

impl<'a, T> HeapElem<'a, T> {
    /// Pair a point with its computed distance.
    pub fn new(d: u64, i: &'a T) -> (e: Self)
        ensures
            e.dist == d,
            e.item == i,
    {
        HeapElem { dist: d, item: i }
    }
}

/// The multiset of `(distance, point)` pairs a candidate list stands for.
pub open spec fn entries_of<T>(s: Seq<HeapElem<T>>) -> Multiset<(u64, T)> {
    s.map_values(|e: HeapElem<T>| (e.dist, *e.item)).to_multiset()
}

/// The multiset of points a candidate list stands for, distances
/// dropped.
pub open spec fn items_of<T>(s: Seq<HeapElem<T>>) -> Multiset<T> {
    s.map_values(|e: HeapElem<T>| *e.item).to_multiset()
}

/// Growing a candidate list twice appends the two contributions: the
/// items past the first length are the two later parts together.
pub proof fn lemma_extend_chain<T>(v0: Seq<HeapElem<T>>, v1: Seq<HeapElem<T>>, v2: Seq<HeapElem<T>>)
    requires
        v0.len() <= v1.len() <= v2.len(),
        v1.subrange(0, v0.len() as int) == v0,
        v2.subrange(0, v1.len() as int) == v1,
    ensures
        v2.subrange(0, v0.len() as int) == v0,
        items_of(v2.skip(v0.len() as int)) == items_of(v1.skip(v0.len() as int)).add(
            items_of(v2.skip(v1.len() as int)),
        ),
{
    let f = |e: HeapElem<T>| *e.item;
    assert(v2.skip(v0.len() as int) =~= v1.skip(v0.len() as int) + v2.skip(v1.len() as int));
    assert(v2.skip(v0.len() as int).map_values(f) =~= v1.skip(v0.len() as int).map_values(f)
        + v2.skip(v1.len() as int).map_values(f));
    vstd::seq_lib::lemma_multiset_commutative(
        v1.skip(v0.len() as int).map_values(f),
        v2.skip(v1.len() as int).map_values(f),
    );
    assert(v2.subrange(0, v0.len() as int) =~= v0);
}

/// `sel` is a best-`n` selection from `pool`: a sub-multiset holding
/// `min(n, |pool|)` pairs, none of which has a larger distance than any
/// pair left out.
pub open spec fn picks_best<T>(
    n: int,
    pool: Multiset<(u64, T)>,
    sel: Multiset<(u64, T)>,
) -> bool {
    &&& sel.subset_of(pool)
    &&& sel.len() as int == (if pool.len() as int <= n {
        pool.len() as int
    } else {
        n
    })
    &&& forall|x: (u64, T), y: (u64, T)|
        #![trigger sel.count(x), pool.sub(sel).count(y)]
        sel.count(x) > 0 && pool.sub(sel).count(y) > 0 ==> x.0 <= y.0
}

/// A best-`n` selection taken in two steps is a best-`n` selection of the
/// combined pool: rejecting early what a later step would also have
/// rejected loses nothing.
pub proof fn lemma_picks_best_chain<T>(
    n: int,
    m0: Multiset<(u64, T)>,
    a: Multiset<(u64, T)>,
    m1: Multiset<(u64, T)>,
    b: Multiset<(u64, T)>,
    m2: Multiset<(u64, T)>,
)
    requires
        n >= 0,
        picks_best(n, m0.add(a), m1),
        picks_best(n, m1.add(b), m2),
    ensures
        picks_best(n, m0.add(a).add(b), m2),
{
    let p1 = m0.add(a);
    let p2 = m1.add(b);
    let pool = p1.add(b);
    assert(m2.subset_of(pool));
    assert(m2.len() as int == (if pool.len() as int <= n {
        pool.len() as int
    } else {
        n
    }));
    assert forall|x: (u64, T), y: (u64, T)|
        #![trigger m2.count(x), pool.sub(m2).count(y)]
        m2.count(x) > 0 && pool.sub(m2).count(y) > 0 implies x.0 <= y.0 by {
        if p2.sub(m2).count(y) > 0 {
            assert(x.0 <= y.0);
        } else {
            // `y` was rejected at the first step, so the first selection
            // was full and every pair of it is `<=` `y`.
            assert(p2.count(y) <= m2.count(y));
            assert(p1.count(y) + b.count(y) > m2.count(y));
            assert(p1.count(y) > m1.count(y));
            assert(p1.sub(m1).count(y) > 0);
            if p1.len() as int <= n {
                assert(m1.len() == p1.len());
                assert(p1.sub(m1).len() == p1.len() - m1.len());
                assert(p1.sub(m1).count(y) <= p1.sub(m1).len());
                assert(false);
            }
            assert(m1.len() as int == n);
            if m1.count(x) > 0 {
                assert(x.0 <= y.0);
            } else {
                // `x` joined at the second step; the second step then
                // rejected some pair `z` of the first selection, and
                // `x.0 <= z.0 <= y.0`.
                assert(m2.count(x) > 0);
                if forall|v: (u64, T)| #[trigger] m1.count(v) <= m2.count(v) {
                    assert(m1.subset_of(m2));
                    assert(m2.sub(m1).len() == m2.len() - m1.len());
                    assert(m2.len() as int == n);
                    assert(m2.sub(m1).len() == 0);
                    assert forall|v: (u64, T)| #[trigger] m2.count(v) <= m1.count(v) by {
                        assert(m2.sub(m1).count(v) <= m2.sub(m1).len());
                    }
                    assert(m1.count(x) > 0);
                    assert(false);
                } else {
                    let z = choose|z: (u64, T)| !(#[trigger] m1.count(z) <= m2.count(z));
                    assert(p2.count(z) >= m1.count(z) > m2.count(z));
                    assert(p2.sub(m2).count(z) > 0);
                    assert(x.0 <= z.0);
                    assert(z.0 <= y.0);
                }
            }
        }
    }
}

/// A full selection absorbs any pool of pairs no closer than its current
/// worst: keeping the selection unchanged is still a best-`n` choice.
pub proof fn lemma_prune<T>(n: int, h: Multiset<(u64, T)>, t: Multiset<(u64, T)>, dm: u64)
    requires
        h.len() as int == n,
        forall|p: (u64, T)| #[trigger] h.count(p) > 0 ==> p.0 <= dm,
        forall|p: (u64, T)| #[trigger] t.count(p) > 0 ==> p.0 >= dm,
    ensures
        picks_best(n, h.add(t), h),
{
    assert forall|x: (u64, T), y: (u64, T)|
        #![trigger h.count(x), h.add(t).sub(h).count(y)]
        h.count(x) > 0 && h.add(t).sub(h).count(y) > 0 implies x.0 <= y.0 by {
        assert(t.count(y) > 0);
    }
}

/// A selection already within its bound absorbs an empty pool.
pub proof fn lemma_absorb_empty<T>(n: int, h: Multiset<(u64, T)>)
    requires
        h.len() as int <= n,
    ensures
        picks_best(n, h.add(Multiset::<(u64, T)>::empty()), h),
{
    assert(h.add(Multiset::<(u64, T)>::empty()) =~= h);
}

/// The pairs of `m` at distance at most `d`.
pub open spec fn close_part<T>(m: Multiset<(u64, T)>, d: u64) -> Multiset<(u64, T)> {
    m.filter(|x: (u64, T)| x.0 <= d)
}

/// How many candidates a best-`n` selection keeps within any distance
/// is forced: `min(n, how many the pool has within it)`. Two selections
/// can therefore differ only in which exactly-tied pairs they keep.
pub proof fn lemma_picks_best_distance_profile<T>(
    n: int,
    pool: Multiset<(u64, T)>,
    sel: Multiset<(u64, T)>,
    d: u64,
)
    requires
        n >= 0,
        picks_best(n, pool, sel),
    ensures
        close_part(sel, d).len() as int == (if close_part(pool, d).len() as int <= n {
            close_part(pool, d).len() as int
        } else {
            n
        }),
{
    let ps = close_part(sel, d);
    let pp = close_part(pool, d);
    let rej = pool.sub(sel);
    assert(pp =~= ps.add(close_part(rej, d)));
    let rc = close_part(rej, d);
    if pool.len() as int <= n {
        assert(pool.sub(sel).len() == pool.len() - sel.len());
        assert(rej.len() == 0);
        assert forall|x: (u64, T)| true implies #[trigger] rc.count(x) == 0 by {
            assert(rej.count(x) <= rej.len());
        }
        assert(rc.len() =~= 0) by {
            assert(rc =~= Multiset::<(u64, T)>::empty());
        }
        assert(pp.len() == ps.len());
        assert(ps.subset_of(sel));
        assert(sel.sub(ps).len() == sel.len() - ps.len());
        assert(ps.len() <= sel.len());
    } else {
        assert(sel.len() as int == n);
        if rc.len() == 0 {
            assert(pp.len() == ps.len());
            assert(ps.subset_of(sel));
            assert(sel.sub(ps).len() == sel.len() - ps.len());
            assert(ps.len() <= sel.len());
        } else {
            let y = rc.choose();
            assert(rc.count(y) > 0);
            assert(rej.count(y) > 0 && y.0 <= d);
            assert forall|x: (u64, T)| true implies #[trigger] ps.count(x) == sel.count(x) by {
                if sel.count(x) > 0 {
                    assert(x.0 <= y.0);
                }
            }
            assert(ps =~= sel);
            assert(ps.subset_of(pp));
            assert(pp.sub(ps).len() == pp.len() - ps.len());
        }
    }
}

/// A bounded worst-first candidate collection.
pub struct KBest<'a, T> {
    elems: Vec<HeapElem<'a, T>>,
}

impl<'a, T> View for KBest<'a, T> {
    type V = Multiset<(u64, T)>;

    closed spec fn view(&self) -> Multiset<(u64, T)> {
        entries_of(self.elems@)
    }
}

impl<'a, T> KBest<'a, T> {
    /// An empty collection.
    pub fn new() -> (s: Self)
        ensures
            s@ == Multiset::<(u64, T)>::empty(),
    {
        let s = KBest { elems: Vec::new() };
        proof {
            assert(s.elems@.map_values(|e: HeapElem<T>| (e.dist, *e.item)) =~= Seq::<(
                u64,
                T,
            )>::empty());
            assert(Seq::<(u64, T)>::empty().to_multiset().len() == 0);
            assert(s@ =~= Multiset::<(u64, T)>::empty());
        }
        s
    }

    /// How many candidates are held.
    pub fn len(&self) -> (l: usize)
        ensures
            l == self@.len(),
    {
        proof {
            assert(self.elems@.map_values(|e: HeapElem<T>| (e.dist, *e.item)).len()
                == self.elems@.len());
        }
        self.elems.len()
    }

    /// The distance of the current worst candidate.
    pub fn max_dist(&self) -> (d: u64)
        requires
            self@.len() > 0,
        ensures
            exists|p: (u64, T)| self@.count(p) > 0 && p.0 == d,
            forall|p: (u64, T)| self@.count(p) > 0 ==> p.0 <= d,
    {
        let ghost mapped = self.elems@.map_values(|e: HeapElem<T>| (e.dist, *e.item));
        let mut best: u64 = self.elems[0].dist;
        let ghost best_at = 0int;
        let mut m: usize = 1;
        while m < self.elems.len()
            invariant
                1 <= m <= self.elems@.len(),
                self.elems@.len() > 0,
                0 <= best_at < self.elems@.len(),
                best == self.elems@[best_at].dist,
                forall|q: int| 0 <= q < m ==> self.elems@[q].dist <= best,
            decreases self.elems@.len() - m,
        {
            if self.elems[m].dist > best {
                best = self.elems[m].dist;
                proof {
                    best_at = m as int;
                }
            }
            m += 1;
        }
        proof {
            assert(mapped[best_at] == (best, *self.elems@[best_at].item));
            assert(mapped.contains(mapped[best_at]));
            assert(self@.count(mapped[best_at]) > 0);
            assert forall|p: (u64, T)| self@.count(p) > 0 implies p.0 <= best by {
                assert(mapped.contains(p));
                let w = choose|w: int| 0 <= w < mapped.len() && mapped[w] == p;
                assert(p.0 == self.elems@[w].dist);
            }
        }
        best
    }

    /// Consider one more candidate: keep it while fewer than `n` are
    /// held, otherwise let it replace the current worst exactly when it
    /// is strictly closer. The result is a best-`n` selection of the old
    /// contents plus the offered pair.
    pub fn offer(&mut self, n: usize, dist: u64, item: &'a T)
        requires
            n >= 1,
            old(self)@.len() <= n,
        ensures
            picks_best(n as int, old(self)@.insert((dist, *item)), final(self)@),
            final(self)@.len() <= n,
    {
        let ghost pool = old(self)@.insert((dist, *item));
        let ghost newp = (dist, *item);
        if self.elems.len() < n {
            let ghost pre = self.elems@;
            self.elems.push(HeapElem { dist, item });
            proof {
                let f = |e: HeapElem<T>| (e.dist, *e.item);
                assert(self.elems@.map_values(f) =~= pre.map_values(f).push(newp));
                assert(self@ == entries_of(pre).insert(newp));
                assert(self@ =~= pool);
                assert(pre.map_values(f).len() == pre.len());
                assert(picks_best(n as int, pool, self@));
            }
            return ;
        }
        // Full: find the worst candidate.
        let ghost mapped = self.elems@.map_values(|e: HeapElem<T>| (e.dist, *e.item));
        let mut worst: u64 = self.elems[0].dist;
        let mut worst_at: usize = 0;
        let mut m: usize = 1;
        proof {
            assert(mapped.len() == self.elems@.len());
            assert(self.elems@.len() == old(self)@.len());
        }
        while m < self.elems.len()
            invariant
                1 <= m <= self.elems@.len(),
                self.elems@.len() > 0,
                worst_at < m,
                worst == self.elems@[worst_at as int].dist,
                forall|q: int| 0 <= q < m ==> self.elems@[q].dist <= worst,
            decreases self.elems@.len() - m,
        {
            if self.elems[m].dist > worst {
                worst = self.elems[m].dist;
                worst_at = m;
            }
            m += 1;
        }
        let ghost worstp = (worst, *self.elems@[worst_at as int].item);
        proof {
            assert(mapped[worst_at as int] == worstp);
            assert(mapped.contains(worstp));
            assert(old(self)@.count(worstp) > 0);
            assert forall|p: (u64, T)| old(self)@.count(p) > 0 implies p.0 <= worst by {
                assert(mapped.contains(p));
                let w = choose|w: int| 0 <= w < mapped.len() && mapped[w] == p;
                assert(p.0 == self.elems@[w].dist);
            }
        }
        if dist < worst {
            let ghost pre = self.elems@;
            self.elems.remove(worst_at);
            proof {
                let f = |e: HeapElem<T>| (e.dist, *e.item);
                assert(self.elems@.map_values(f) =~= pre.map_values(f).remove(worst_at as int));
                assert(entries_of(self.elems@) == entries_of(pre).remove(worstp));
            }
            let ghost mid = self.elems@;
            self.elems.push(HeapElem { dist, item });
            proof {
                let f = |e: HeapElem<T>| (e.dist, *e.item);
                assert(self.elems@.map_values(f) =~= mid.map_values(f).push(newp));
                assert(self@ == old(self)@.remove(worstp).insert(newp));
                assert(self@.subset_of(pool));
                assert(pool.len() == old(self)@.len() + 1);
                assert(old(self)@.len() == n);
                assert(self@.len() == n);
                assert forall|x: (u64, T), y: (u64, T)|
                    #![trigger self@.count(x), pool.sub(self@).count(y)]
                    self@.count(x) > 0 && pool.sub(self@).count(y) > 0 implies x.0 <= y.0 by {
                    assert(y == worstp) by {
                        if y != worstp {
                            assert(pool.count(y) == self@.count(y));
                        }
                    }
                    if x != newp || old(self)@.count(x) > self@.count(x) - 1 {
                    }
                    if self@.count(x) > 0 {
                        if x == newp {
                            assert(x.0 < worst);
                        } else {
                            assert(old(self)@.count(x) > 0);
                            assert(x.0 <= worst);
                        }
                    }
                }
                assert(picks_best(n as int, pool, self@));
            }
        } else {
            proof {
                assert(self@ == old(self)@);
                assert(self@.subset_of(pool));
                assert(pool.len() == old(self)@.len() + 1);
                assert(old(self)@.len() == n);
                assert forall|x: (u64, T), y: (u64, T)|
                    #![trigger self@.count(x), pool.sub(self@).count(y)]
                    self@.count(x) > 0 && pool.sub(self@).count(y) > 0 implies x.0 <= y.0 by {
                    assert(y == newp) by {
                        if y != newp {
                            assert(pool.count(y) == self@.count(y));
                        }
                    }
                    assert(x.0 <= worst);
                    assert(worst <= dist);
                }
                assert(picks_best(n as int, pool, self@));
            }
        }
    }

    /// Hand the candidates out as a plain vector.
    pub fn into_elems(self) -> (v: Vec<HeapElem<'a, T>>)
        ensures
            entries_of(v@) == self@,
    {
        self.elems
    }
}

/// Sort candidates ascending by distance (insertion sort), keeping the
/// multiset of `(distance, point)` pairs.
pub fn sort_by_dist<'a, T>(v: &mut Vec<HeapElem<'a, T>>)
    ensures
        final(v)@.len() == old(v)@.len(),
        entries_of(final(v)@) == entries_of(old(v)@),
        forall|a: int, b: int|
            0 <= a <= b < final(v)@.len() ==> final(v)@[a].dist <= final(v)@[b].dist,
{
    let mut i: usize = 1;
    while i < v.len()
        invariant
            1 <= i || v@.len() == 0,
            i <= v@.len() || v@.len() == 0,
            v@.len() == old(v)@.len(),
            entries_of(v@) == entries_of(old(v)@),
            forall|a: int, b: int| 0 <= a <= b < i ==> v@[a].dist <= v@[b].dist,
        decreases v@.len() - i,
    {
        let mut j: usize = i;
        while j > 0 && v[j - 1].dist > v[j].dist
            invariant
                0 <= j <= i < v@.len(),
                v@.len() == old(v)@.len(),
                entries_of(v@) == entries_of(old(v)@),
                forall|a: int, b: int|
                    0 <= a <= b <= i && a != j && b != j ==> v@[a].dist <= v@[b].dist,
                forall|a: int| j < a <= i ==> v@[j as int].dist <= v@[a].dist,
            decreases j,
        {
            let ghost pre = v@;
            vec_swap(v, j - 1, j);
            proof {
                let f = |e: HeapElem<T>| (e.dist, *e.item);
                assert(v@.map_values(f) =~= pre.map_values(f).update(
                    j - 1,
                    pre.map_values(f)[j as int],
                ).update(j as int, pre.map_values(f)[j - 1]));
                lemma_swap_keeps_multiset(pre.map_values(f), j - 1, j as int);
            }
            j -= 1;
        }
        i += 1;
    }
}

} // verus!
