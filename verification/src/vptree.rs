//! The vantage-point tree itself: the node structure, its structural
//! invariant, and the recursive construction around randomly selected
//! vantage points.

use crate::kbest::entries_of;
use crate::kbest::items_of;
use crate::kbest::sort_by_dist;
use crate::kbest::lemma_absorb_empty;
use crate::kbest::lemma_picks_best_chain;
use crate::kbest::lemma_prune;
use crate::kbest::picks_best;
use crate::kbest::KBest;
use crate::kbest::lemma_extend_chain;
use crate::kbest::HeapElem;
use crate::median::comparison_callable;
use crate::median::consistent_with;
use crate::median::lemma_map_values_multiset;
use crate::median::quick_select_by;
use crate::median::total_preorder;
use crate::metric::MetricItem;
use crate::rng;
use vstd::multiset::Multiset;
use vstd::prelude::*;

verus! {

broadcast use
    vstd::seq_lib::group_to_multiset_ensures,
    vstd::multiset::group_multiset_axioms,
;

/// A stored point paired with a scratch distance. During construction
/// the scratch field holds the point's distance to the vantage point of
/// the current recursion level.
pub struct TaggedItem<T> {
    pub item: T,
    pub dist: u64,
}

/// Subtree split for non-leaf nodes.
///
/// The tree is left (inner) biased: every non-leaf node has an inner
/// subtree and an optional outer subtree.
pub struct InnerNode<T> {
    pub(crate) mu: u64,
    pub(crate) inner: Box<VPNode<T>>,
    pub(crate) outer: Option<Box<VPNode<T>>>,
}

/// One node of the tree: the vantage point it owns and, unless it is a
/// leaf, the split around that point.
pub struct VPNode<T> {
    pub(crate) contents: Option<InnerNode<T>>,
    pub(crate) center: T,
}

/// The multiset of points a sequence of tagged items carries.
pub open spec fn items_ms<T>(s: Seq<TaggedItem<T>>) -> Multiset<T> {
    s.map_values(|ti: TaggedItem<T>| ti.item).to_multiset()
}

impl<T> VPNode<T> {
    /// The multiset of points stored in this subtree.
    pub closed spec fn pts(self) -> Multiset<T>
        decreases self,
    {
        Multiset::singleton(self.center).add(
            match self.contents {
                None => Multiset::empty(),
                Some(c) => c.inner.pts().add(
                    match c.outer {
                        None => Multiset::empty(),
                        Some(o) => o.pts(),
                    },
                ),
            },
        )
    }

    /// A subtree stores at least one point.
    pub proof fn lemma_pts_nonempty(&self)
        ensures
            self.pts().len() >= 1,
    {
    }
}

impl<T: MetricItem> VPNode<T> {
    /// Soundness of every split below this node: each point of an inner
    /// subtree lies within `mu` of its node's center, each point of an
    /// outer subtree lies at least `mu` away.
    ///
    /// Points at distance exactly `mu` can land on either side when
    /// distances tie at the split boundary; both query algorithms prune
    /// correctly with these non-strict bounds.
    pub closed spec fn wf(self) -> bool
        decreases self,
    {
        match self.contents {
            None => true,
            Some(c) => {
                &&& c.inner.wf()
                &&& (forall|p: T|
                    #[trigger] c.inner.pts().count(p) > 0 ==> p.dist(&self.center) <= c.mu)
                &&& (match c.outer {
                    None => true,
                    Some(o) => {
                        &&& o.wf()
                        &&& (forall|p: T|
                            #[trigger] o.pts().count(p) > 0 ==> p.dist(&self.center) >= c.mu)
                    },
                })
            },
        }
    }
}

/// No point of `items` is farther from the probe point `items[probe]`
/// than `items[r]` is.
pub(crate) open spec fn is_farthest<T: MetricItem>(
    items: Seq<TaggedItem<T>>,
    probe: int,
    r: int,
) -> bool {
    forall|m: int|
        0 <= m < items.len() ==> #[trigger] items[probe].item.dist(&items[m].item)
            <= items[probe].item.dist(&items[r].item)
}

/// Pick the vantage point of the current set: one random probe point,
/// then the index of a point farthest from the probe.
fn select_vantage_point<T: MetricItem>(items: &Vec<TaggedItem<T>>) -> (r: usize)
    requires
        items@.len() >= 1,
    ensures
        r < items@.len(),
        exists|probe: int|
            0 <= probe < items@.len() && #[trigger] is_farthest(items@, probe, r as int),
{
    let i = rng::random_in_range(0, items.len());
    let mut best_d: u64 = 0;
    let mut best_i: usize = i;
    let mut m: usize = 0;
    while m < items.len()
        invariant
            i < items@.len(),
            best_i < items@.len(),
            m <= items@.len(),
            best_d <= items@[i as int].item.dist(&items@[best_i as int].item),
            forall|q: int| 0 <= q < m ==> items@[i as int].item.dist(&items@[q].item) <= best_d,
        decreases items@.len() - m,
    {
        let d = items[i].item.distance(&items[m].item);
        if d > best_d {
            best_d = d;
            best_i = m;
        }
        m += 1;
    }
    proof {
        assert(is_farthest(items@, i as int, best_i as int));
    }
    best_i
}

/// Tag correctness survives any permutation: if every tagged item of
/// `s_old` carries its true distance to `c`, so does every tagged item
/// of an `s_new` holding the same multiset.
proof fn lemma_tag_transfer<T: MetricItem>(
    s_old: Seq<TaggedItem<T>>,
    s_new: Seq<TaggedItem<T>>,
    c: &T,
)
    requires
        s_new.to_multiset() == s_old.to_multiset(),
        forall|q: int| 0 <= q < s_old.len() ==> #[trigger] s_old[q].dist == s_old[q].item.dist(c),
    ensures
        forall|q: int| 0 <= q < s_new.len() ==> #[trigger] s_new[q].dist == s_new[q].item.dist(c),
{
    assert forall|q: int| 0 <= q < s_new.len() implies #[trigger] s_new[q].dist
        == s_new[q].item.dist(c) by {
        assert(s_new.contains(s_new[q]));
        assert(s_old.to_multiset().count(s_new[q]) > 0);
        assert(s_old.contains(s_new[q]));
        let w = choose|w: int| 0 <= w < s_old.len() && s_old[w] == s_new[q];
        assert(s_old[w].dist == s_old[w].item.dist(c));
    }
}

impl<T: MetricItem> VPNode<T> {
    /// Build the subtree holding exactly the given points.
    ///
    /// The incoming scratch distances are ignored: every level recomputes
    /// them against its own vantage point.
    pub fn new(items: Vec<TaggedItem<T>>) -> (node: VPNode<T>)
        requires
            items@.len() >= 1,
        ensures
            node.wf(),
            node.pts() == items_ms(items@),
        decreases items@.len(),
    {
        let ghost items0 = items@;
        let mut work = items;
        if work.len() == 1 {
            let ti = work.pop().unwrap();
            let node = VPNode { contents: None, center: ti.item };
            proof {
                assert(items0.map_values(|t: TaggedItem<T>| t.item) =~= Seq::<T>::empty().push(
                    node.center,
                ));
                assert(Seq::<T>::empty().to_multiset().len() == 0);
                assert(Seq::<T>::empty().to_multiset() =~= Multiset::<T>::empty());
                assert(node.pts() =~= items_ms(items0));
            }
            return node;
        }

        let sel_index = select_vantage_point(&work);
        let vp = work.remove(sel_index);
        proof {
            assert(work@.map_values(|t: TaggedItem<T>| t.item) =~= items0.map_values(
                |t: TaggedItem<T>| t.item,
            ).remove(sel_index as int));
            assert(items0.map_values(|t: TaggedItem<T>| t.item)[sel_index as int] == vp.item);
            assert(items_ms(work@) == items_ms(items0).remove(vp.item));
            assert(items_ms(items0).count(vp.item) > 0) by {
                assert(items0.map_values(|t: TaggedItem<T>| t.item).contains(vp.item));
            }
        }
        let ghost removed_ms = items_ms(work@);

        // Recompute every remaining point's distance to the vantage point.
        let mut tagged: Vec<TaggedItem<T>> = Vec::new();
        proof {
            assert(tagged@.map_values(|t: TaggedItem<T>| t.item) =~= Seq::<T>::empty());
            assert(Seq::<T>::empty().to_multiset().len() == 0);
            assert(Seq::<T>::empty().to_multiset() =~= Multiset::<T>::empty());
        }
        while work.len() > 0
            invariant
                forall|q: int|
                    0 <= q < tagged@.len() ==> #[trigger] tagged@[q].dist == tagged@[q].item.dist(
                        &vp.item,
                    ),
                items_ms(work@).add(items_ms(tagged@)) == removed_ms,
            decreases work@.len(),
        {
            let ghost work_pre = work@;
            let ghost tagged_pre = tagged@;
            let ti = work.pop().unwrap();
            let d = ti.item.distance(&vp.item);
            tagged.push(TaggedItem { item: ti.item, dist: d });
            proof {
                let f = |t: TaggedItem<T>| t.item;
                assert(work@.map_values(f) =~= work_pre.map_values(f).drop_last());
                assert(work_pre.map_values(f) =~= work@.map_values(f).push(
                    tagged@[tagged@.len() - 1].item,
                ));
                assert(items_ms(work_pre) == items_ms(work@).insert(tagged@[tagged@.len() - 1].item));
                assert(tagged@.map_values(f) =~= tagged_pre.map_values(f).push(
                    tagged@[tagged@.len() - 1].item,
                ));
                assert(items_ms(tagged@) == items_ms(tagged_pre).insert(
                    tagged@[tagged@.len() - 1].item,
                ));
                assert(items_ms(work@).add(items_ms(tagged@)) =~= removed_ms);
            }
        }
        proof {
            assert(items_ms(work@).len() == 0) by {
                assert(work@.map_values(|t: TaggedItem<T>| t.item).len() == 0);
            }
            assert(items_ms(tagged@) =~= removed_ms);
            assert(tagged@.map_values(|t: TaggedItem<T>| t.item).len() == tagged@.len());
            assert(items0.map_values(|t: TaggedItem<T>| t.item).len() == items0.len());
            assert(items_ms(tagged@).len() == tagged@.len());
            assert(items_ms(items0).len() == items0.len());
            assert(Multiset::singleton(vp.item).subset_of(items_ms(items0)));
            assert(removed_ms.len() == items0.len() - 1);
            assert(tagged@.len() == items0.len() - 1);
        }

        let n = tagged.len();
        let ghost k = ((n - 1) / 2) as int;
        if n > 1 {
            let cmp = |a: &TaggedItem<T>, b: &TaggedItem<T>| -> (r: bool)
                ensures
                    r == (a.dist <= b.dist),
                { a.dist <= b.dist };
            proof {
                assert(comparison_callable::<TaggedItem<T>, _>(&cmp));
            }
            let ghost pre_select = tagged@;
            quick_select_by(&mut tagged, (n - 1) / 2, &cmp);
            proof {
                let leq = |a: TaggedItem<T>, b: TaggedItem<T>| a.dist <= b.dist;
                assert(total_preorder(leq));
                assert(consistent_with(&cmp, leq));
                assert(forall|m: int| 0 <= m < k ==> leq(tagged@[m], tagged@[k]));
                assert(forall|m: int| k < m < tagged@.len() ==> leq(tagged@[k], tagged@[m]));
                assert(forall|m: int|
                    0 <= m <= k ==> #[trigger] tagged@[m].dist <= tagged@[k].dist);
                assert(forall|m: int|
                    k < m < tagged@.len() ==> tagged@[k].dist <= #[trigger] tagged@[m].dist);
                lemma_map_values_multiset(pre_select, tagged@, |t: TaggedItem<T>| t.item);
                assert(items_ms(tagged@) == removed_ms);
                lemma_tag_transfer(pre_select, tagged@, &vp.item);
            }
        } else {
            proof {
                assert(forall|m: int|
                    0 <= m <= k ==> #[trigger] tagged@[m].dist <= tagged@[k].dist);
                assert(forall|m: int|
                    k < m < tagged@.len() ==> tagged@[k].dist <= #[trigger] tagged@[m].dist);
            }
        }

        // Split so that the inner half receives the extra element on odd
        // counts; `mu` is the largest inner distance, the exact threshold.
        let ghost pre_split = tagged@;
        let right_items = tagged.split_off(n - n / 2);
        let mu = tagged[tagged.len() - 1].dist;
        proof {
            assert(tagged@[tagged@.len() - 1] == pre_split[k]);
            assert(pre_split =~= tagged@ + right_items@);
            let f = |t: TaggedItem<T>| t.item;
            assert(pre_split.map_values(f) =~= tagged@.map_values(f) + right_items@.map_values(f));
            vstd::seq_lib::lemma_multiset_commutative(
                tagged@.map_values(f),
                right_items@.map_values(f),
            );
            assert(items_ms(pre_split) == items_ms(tagged@).add(items_ms(right_items@)));
        }
        let ghost left_seq = tagged@;
        let ghost right_seq = right_items@;
        let ghost vp_item = vp.item;

        let inner = Box::new(VPNode::new(tagged));
        let ghost inner_snap = *inner;
        proof {
            // Every inner point lies within `mu` of the vantage point.
            assert forall|p: T| inner_snap.pts().count(p) > 0 implies p.dist(&vp_item) <= mu by {
                let lm = left_seq.map_values(|t: TaggedItem<T>| t.item);
                assert(lm.contains(p));
                let w = lm.index_of(p);
                assert(0 <= w < left_seq.len() && lm[w] == p);
                assert(left_seq[w].item == p);
                assert(left_seq[w] == pre_split[w]);
                assert(left_seq[w].dist <= mu);
                assert(left_seq[w].dist == left_seq[w].item.dist(&vp_item));
            }
        }
        let outer = if right_items.len() == 0 {
            proof {
                assert(items_ms(right_seq).len() == 0) by {
                    assert(right_seq.map_values(|t: TaggedItem<T>| t.item).len() == 0);
                }
                assert(items_ms(right_seq) =~= Multiset::<T>::empty());
            }
            None
        } else {
            let o = Box::new(VPNode::new(right_items));
            let ghost o_snap = *o;
            proof {
                // Every outer point lies at least `mu` from the vantage point.
                assert forall|p: T| o_snap.pts().count(p) > 0 implies p.dist(&vp_item) >= mu by {
                    let rm = right_seq.map_values(|t: TaggedItem<T>| t.item);
                    assert(rm.contains(p));
                    let w = rm.index_of(p);
                    assert(0 <= w < right_seq.len() && rm[w] == p);
                    assert(right_seq[w].item == p);
                    assert(right_seq[w] == pre_split[w + left_seq.len()]);
                    assert(right_seq[w].dist >= mu);
                    assert(right_seq[w].dist == right_seq[w].item.dist(&vp_item));
                }
            }
            Some(o)
        };
        let node = VPNode { center: vp.item, contents: Some(InnerNode { mu, inner, outer }) };
        proof {
            assert(node.wf());
            assert(node.pts() =~= items_ms(items0));
        }
        node
    }
}

/// A vantage-point tree.
///
/// A vantage-point tree stores a fixed set of points to be queried
/// against; it is immutable once built.
pub struct VPTree<T: MetricItem> {
    pub(crate) root: VPNode<T>,
}

impl<T: MetricItem> View for VPTree<T> {
    type V = Multiset<T>;

    /// The multiset of points the tree stores.
    closed spec fn view(&self) -> Multiset<T> {
        self.root.pts()
    }
}

impl<T: MetricItem> VPTree<T> {
    /// Every split of the tree separates its points soundly.
    #[verifier::type_invariant]
    pub closed spec fn wf(self) -> bool {
        self.root.wf()
    }

    /// A tree always stores at least one point.
    pub proof fn lemma_nonempty(&self)
        ensures
            self@.len() >= 1,
    {
        self.root.lemma_pts_nonempty();
    }

    /// Construct a new vantage point tree from a set of elements.
    ///
    /// Returns `None` exactly when `items` is empty; otherwise the tree
    /// stores the given points, each exactly as often as it was given.
    ///
    /// Nothing checks that the `MetricItem` implementation defines a
    /// metric beyond the laws its impl proved; the proofs of those laws
    /// are what make later query answers correct.
    pub fn new(items: Vec<T>) -> (t: Option<VPTree<T>>)
        ensures
            t is Some <==> items@.len() > 0,
            (match t {
                Some(tree) => tree@ == items@.to_multiset(),
                None => true,
            }),
    {
        let n = items.len();
        if n > 0 {
            let ghost items0 = items@;
            let mut work = items;
            let mut tagged: Vec<TaggedItem<T>> = Vec::new();
            proof {
                assert(tagged@.map_values(|t: TaggedItem<T>| t.item) =~= Seq::<T>::empty());
                assert(Seq::<T>::empty().to_multiset().len() == 0);
                assert(work@.to_multiset().add(items_ms(tagged@)) =~= items0.to_multiset());
            }
            while work.len() > 0
                invariant
                    work@.to_multiset().add(items_ms(tagged@)) == items0.to_multiset(),
                decreases work@.len(),
            {
                let ghost work_pre = work@;
                let ghost tagged_pre = tagged@;
                let x = work.pop().unwrap();
                tagged.push(TaggedItem { item: x, dist: 0 });
                proof {
                    let f = |t: TaggedItem<T>| t.item;
                    assert(work_pre =~= work@.push(tagged@[tagged@.len() - 1].item));
                    assert(work_pre.to_multiset() == work@.to_multiset().insert(
                        tagged@[tagged@.len() - 1].item,
                    ));
                    assert(tagged@.map_values(f) =~= tagged_pre.map_values(f).push(
                        tagged@[tagged@.len() - 1].item,
                    ));
                    assert(items_ms(tagged@) == items_ms(tagged_pre).insert(
                        tagged@[tagged@.len() - 1].item,
                    ));
                    assert(work@.to_multiset().add(items_ms(tagged@)) =~= items0.to_multiset());
                }
            }
            proof {
                assert(work@.to_multiset().len() == 0);
                assert(items_ms(tagged@) =~= items0.to_multiset());
                assert(tagged@.map_values(|t: TaggedItem<T>| t.item).len() == tagged@.len());
                assert(items0.to_multiset().len() == items0.len());
                assert(tagged@.len() == items0.len());
            }
            let root = VPNode::new(tagged);
            let t = VPTree { root };
            proof {
                assert(t@ =~= items0.to_multiset());
            }
            Some(t)
        } else {
            None
        }
    }
}

/// The subset of `m` strictly within `radius` of `q`.
pub open spec fn within_of<T: MetricItem>(q: T, m: Multiset<T>, radius: u64) -> Multiset<T> {
    m.filter(|p: T| q.dist(&p) < radius)
}

/// Restricting to a radius distributes over multiset union.
proof fn lemma_within_add<T: MetricItem>(q: T, a: Multiset<T>, b: Multiset<T>, radius: u64)
    ensures
        within_of(q, a.add(b), radius) == within_of(q, a, radius).add(within_of(q, b, radius)),
{
    assert(within_of(q, a.add(b), radius) =~= within_of(q, a, radius).add(
        within_of(q, b, radius),
    ));
}

/// Restricting a single point to a radius keeps or drops it.
proof fn lemma_within_singleton<T: MetricItem>(q: T, p: T, radius: u64)
    ensures
        within_of(q, Multiset::singleton(p), radius) == (if q.dist(&p) < radius {
            Multiset::singleton(p)
        } else {
            Multiset::<T>::empty()
        }),
{
    if q.dist(&p) < radius {
        assert(within_of(q, Multiset::singleton(p), radius) =~= Multiset::singleton(p));
    } else {
        assert(within_of(q, Multiset::singleton(p), radius) =~= Multiset::<T>::empty());
    }
}

/// A set of points all at or beyond the radius contributes nothing.
proof fn lemma_within_empty_far<T: MetricItem>(q: T, m: Multiset<T>, radius: u64)
    requires
        forall|p: T| #[trigger] m.count(p) > 0 ==> q.dist(&p) >= radius,
    ensures
        within_of(q, m, radius) == Multiset::<T>::empty(),
{
    assert(within_of(q, m, radius) =~= Multiset::<T>::empty());
}

/// The triangle inequality, lifted to a whole inner ball: points within
/// `mu` of the center `c` are at least `d(q, c) - mu` from the query.
proof fn lemma_inner_far<T: MetricItem>(q: T, c: T, m: Multiset<T>, mu: u64)
    requires
        forall|p: T| #[trigger] m.count(p) > 0 ==> p.dist(&c) <= mu,
    ensures
        forall|p: T| #[trigger] m.count(p) > 0 ==> q.dist(&p) + mu >= q.dist(&c),
{
    assert forall|p: T| #[trigger] m.count(p) > 0 implies q.dist(&p) + mu >= q.dist(&c) by {
        T::metric_laws(&q, &p, &c);
    }
}

/// The triangle inequality, lifted to a whole outer shell: points at
/// least `mu` from the center `c` are at least `mu - d(q, c)` from the
/// query.
proof fn lemma_outer_far<T: MetricItem>(q: T, c: T, m: Multiset<T>, mu: u64)
    requires
        forall|p: T| #[trigger] m.count(p) > 0 ==> p.dist(&c) >= mu,
    ensures
        forall|p: T| #[trigger] m.count(p) > 0 ==> q.dist(&p) + q.dist(&c) >= mu,
{
    assert forall|p: T| #[trigger] m.count(p) > 0 implies q.dist(&p) + q.dist(&c) >= mu by {
        T::metric_laws(&p, &q, &c);
        T::metric_laws(&p, &q, &q);
    }
}

impl<T: MetricItem> VPNode<T> {
    /// Visit one side of a split during a radius search, or skip it when
    /// the triangle inequality shows it cannot contain a match.
    fn radius_side<'a>(
        child: &'a VPNode<T>,
        center: Ghost<T>,
        is_inner: bool,
        mu: u64,
        d_center: u64,
        obj: &T,
        radius: u64,
        v: &mut Vec<HeapElem<'a, T>>,
    )
        requires
            child.wf(),
            d_center == obj.dist(&center@),
            is_inner ==> (forall|p: T|
                #[trigger] child.pts().count(p) > 0 ==> p.dist(&center@) <= mu),
            !is_inner ==> (forall|p: T|
                #[trigger] child.pts().count(p) > 0 ==> p.dist(&center@) >= mu),
        ensures
            final(v)@.len() >= old(v)@.len(),
            final(v)@.subrange(0, old(v)@.len() as int) == old(v)@,
            items_of(final(v)@.skip(old(v)@.len() as int)) == within_of(
                *obj,
                child.pts(),
                radius,
            ),
            forall|m: int|
                old(v)@.len() <= m < final(v)@.len() ==> final(v)@[m].dist == obj.dist(
                    final(v)@[m].item,
                ),
        decreases child, 1int,
    {
        let skip = if is_inner {
            d_center >= radius && d_center - radius >= mu
        } else {
            mu >= radius && mu - radius >= d_center
        };
        if !skip {
            child.within_radius(obj, radius, v);
        } else {
            proof {
                if is_inner {
                    lemma_inner_far(*obj, center@, child.pts(), mu);
                } else {
                    lemma_outer_far(*obj, center@, child.pts(), mu);
                }
                assert forall|p: T| #[trigger] child.pts().count(p) > 0 implies obj.dist(&p)
                    >= radius by {}
                lemma_within_empty_far(*obj, child.pts(), radius);
                assert(v@.skip(v@.len() as int) =~= Seq::<HeapElem<T>>::empty());
                assert(v@.skip(v@.len() as int).map_values(|e: HeapElem<T>| *e.item) =~= Seq::<
                    T,
                >::empty());
                assert(Seq::<T>::empty().to_multiset().len() == 0);
                assert(items_of(v@.skip(v@.len() as int)) =~= Multiset::<T>::empty());
                assert(v@.subrange(0, v@.len() as int) =~= v@);
            }
        }
    }

    /// Append every stored point lying strictly within `radius` of `obj`,
    /// with its distance, to `v`.
    ///
    /// Subtrees that the split radii and the triangle inequality prove
    /// empty of matches are not visited.
    pub fn within_radius<'a>(&'a self, obj: &T, radius: u64, v: &mut Vec<HeapElem<'a, T>>)
        requires
            self.wf(),
        ensures
            final(v)@.len() >= old(v)@.len(),
            final(v)@.subrange(0, old(v)@.len() as int) == old(v)@,
            items_of(final(v)@.skip(old(v)@.len() as int)) == within_of(
                *obj,
                self.pts(),
                radius,
            ),
            forall|m: int|
                old(v)@.len() <= m < final(v)@.len() ==> final(v)@[m].dist == obj.dist(
                    final(v)@[m].item,
                ),
        decreases self, 0int,
    {
        let ghost v0 = v@;
        let ghost q = *obj;
        let d_center = obj.distance(&self.center);
        if d_center < radius {
            v.push(HeapElem { dist: d_center, item: &self.center });
        }
        let ghost v1 = v@;
        proof {
            lemma_within_singleton(q, self.center, radius);
            if d_center < radius {
                assert(v1.skip(v0.len() as int) =~= Seq::<HeapElem<T>>::empty().push(
                    v1[v1.len() - 1],
                ));
                assert(v1.skip(v0.len() as int).map_values(|e: HeapElem<T>| *e.item) =~= Seq::<
                    T,
                >::empty().push(self.center));
                assert(Seq::<T>::empty().to_multiset().len() == 0);
                assert(items_of(v1.skip(v0.len() as int)) =~= Multiset::singleton(self.center));
            } else {
                assert(v1.skip(v0.len() as int) =~= Seq::<HeapElem<T>>::empty());
                assert(v1.skip(v0.len() as int).map_values(|e: HeapElem<T>| *e.item) =~= Seq::<
                    T,
                >::empty());
                assert(Seq::<T>::empty().to_multiset().len() == 0);
                assert(items_of(v1.skip(v0.len() as int)) =~= Multiset::<T>::empty());
            }
            assert(items_of(v1.skip(v0.len() as int)) == within_of(
                q,
                Multiset::singleton(self.center),
                radius,
            ));
            assert(v1.subrange(0, v0.len() as int) =~= v0);
        }
        match &self.contents {
            None => {
                proof {
                    assert(self.pts() == Multiset::singleton(self.center).add(
                        Multiset::<T>::empty(),
                    ));
                    lemma_within_add(q, Multiset::singleton(self.center), Multiset::empty(), radius);
                    assert(within_of(q, Multiset::<T>::empty(), radius) =~= Multiset::<
                        T,
                    >::empty());
                    assert(items_of(v@.skip(v0.len() as int)) == within_of(q, self.pts(), radius));
                }
            },
            Some(c) => {
                let ghost inner_ms = c.inner.pts();
                let ghost outer_ms = (match &c.outer {
                    Some(o) => o.pts(),
                    None => Multiset::<T>::empty(),
                });
                proof {
                    assert(self.pts() == Multiset::singleton(self.center).add(
                        inner_ms.add(outer_ms),
                    ));
                }
                if d_center <= c.mu {
                    Self::radius_side(
                        &c.inner,
                        Ghost(self.center),
                        true,
                        c.mu,
                        d_center,
                        obj,
                        radius,
                        v,
                    );
                    let ghost v2 = v@;
                    match &c.outer {
                        Some(o) => {
                            Self::radius_side(
                                o,
                                Ghost(self.center),
                                false,
                                c.mu,
                                d_center,
                                obj,
                                radius,
                                v,
                            );
                        },
                        None => {
                            proof {
                                assert(within_of(q, outer_ms, radius) =~= Multiset::<T>::empty());
                            }
                        },
                    }
                    let ghost v3 = v@;
                    proof {
                        if c.outer is None {
                            assert(v3 == v2);
                            assert(v3.subrange(0, v2.len() as int) =~= v2);
                            assert(v3.skip(v2.len() as int) =~= Seq::<HeapElem<T>>::empty());
                            assert(v3.skip(v2.len() as int).map_values(|e: HeapElem<T>| *e.item)
                                =~= Seq::<T>::empty());
                            assert(Seq::<T>::empty().to_multiset().len() == 0);
                            assert(items_of(v3.skip(v2.len() as int)) =~= Multiset::<T>::empty());
                        }
                        assert(items_of(v2.skip(v1.len() as int)) == within_of(
                            q,
                            inner_ms,
                            radius,
                        ));
                        assert(items_of(v3.skip(v2.len() as int)) == within_of(
                            q,
                            outer_ms,
                            radius,
                        ));
                        lemma_extend_chain(v0, v1, v2);
                        lemma_extend_chain(v0, v2, v3);
                        lemma_within_add(q, Multiset::singleton(self.center), inner_ms.add(outer_ms), radius);
                        lemma_within_add(q, inner_ms, outer_ms, radius);
                        assert(items_of(v3.skip(v0.len() as int)) =~= within_of(
                            q,
                            self.pts(),
                            radius,
                        ));
                        assert forall|m: int|
                            v0.len() <= m < v3.len() implies v3[m].dist == obj.dist(
                            v3[m].item,
                        ) by {
                            if m < v1.len() {
                                assert(v3[m] == v3.subrange(0, v2.len() as int)[m]);
                                assert(v2[m] == v2.subrange(0, v1.len() as int)[m]);
                            } else if m < v2.len() {
                                assert(v3[m] == v3.subrange(0, v2.len() as int)[m]);
                            }
                        }
                    }
                } else {
                    let ghost v2;
                    match &c.outer {
                        Some(o) => {
                            Self::radius_side(
                                o,
                                Ghost(self.center),
                                false,
                                c.mu,
                                d_center,
                                obj,
                                radius,
                                v,
                            );
                        },
                        None => {
                            proof {
                                assert(within_of(q, outer_ms, radius) =~= Multiset::<T>::empty());
                            }
                        },
                    }
                    proof {
                        v2 = v@;
                        if c.outer is None {
                            assert(v2 == v1);
                            assert(v2.subrange(0, v1.len() as int) =~= v1);
                            assert(v2.skip(v1.len() as int) =~= Seq::<HeapElem<T>>::empty());
                            assert(v2.skip(v1.len() as int).map_values(|e: HeapElem<T>| *e.item)
                                =~= Seq::<T>::empty());
                            assert(Seq::<T>::empty().to_multiset().len() == 0);
                            assert(items_of(v2.skip(v1.len() as int)) =~= Multiset::<T>::empty());
                        }
                    }
                    Self::radius_side(
                        &c.inner,
                        Ghost(self.center),
                        true,
                        c.mu,
                        d_center,
                        obj,
                        radius,
                        v,
                    );
                    let ghost v3 = v@;
                    proof {
                        assert(items_of(v2.skip(v1.len() as int)) == within_of(
                            q,
                            outer_ms,
                            radius,
                        ));
                        assert(items_of(v3.skip(v2.len() as int)) == within_of(
                            q,
                            inner_ms,
                            radius,
                        ));
                        lemma_extend_chain(v0, v1, v2);
                        lemma_extend_chain(v0, v2, v3);
                        lemma_within_add(q, Multiset::singleton(self.center), inner_ms.add(outer_ms), radius);
                        lemma_within_add(q, inner_ms, outer_ms, radius);
                        assert(items_of(v3.skip(v0.len() as int)) =~= within_of(
                            q,
                            self.pts(),
                            radius,
                        ));
                        assert forall|m: int|
                            v0.len() <= m < v3.len() implies v3[m].dist == obj.dist(
                            v3[m].item,
                        ) by {
                            if m < v1.len() {
                                assert(v3[m] == v3.subrange(0, v2.len() as int)[m]);
                                assert(v2[m] == v2.subrange(0, v1.len() as int)[m]);
                            } else if m < v2.len() {
                                assert(v3[m] == v3.subrange(0, v2.len() as int)[m]);
                            }
                        }
                    }
                }
            },
        }
    }
}

impl<T: MetricItem> VPNode<T> {
    /// The stored points of this subtree, each paired with its distance
    /// from the query point `q`.
    pub closed spec fn tagged_pts(self, q: T) -> Multiset<(u64, T)>
        decreases self,
    {
        Multiset::singleton((q.dist(&self.center), self.center)).add(
            match self.contents {
                None => Multiset::empty(),
                Some(c) => c.inner.tagged_pts(q).add(
                    match c.outer {
                        None => Multiset::empty(),
                        Some(o) => o.tagged_pts(q),
                    },
                ),
            },
        )
    }

    /// A pair occurs among the tagged points exactly as often as its
    /// point is stored, and only with that point's true distance.
    pub proof fn lemma_tagged_pts_count(self, q: T, d: u64, p: T)
        ensures
            self.tagged_pts(q).count((d, p)) == (if d == q.dist(&p) {
                self.pts().count(p)
            } else {
                0
            }),
        decreases self,
    {
        match self.contents {
            None => {},
            Some(c) => {
                c.inner.lemma_tagged_pts_count(q, d, p);
                match c.outer {
                    None => {},
                    Some(o) => {
                        o.lemma_tagged_pts_count(q, d, p);
                    },
                }
            },
        }
    }

    /// Tagging does not change how many points there are.
    pub proof fn lemma_tagged_pts_len(self, q: T)
        ensures
            self.tagged_pts(q).len() == self.pts().len(),
        decreases self,
    {
        match self.contents {
            None => {},
            Some(c) => {
                c.inner.lemma_tagged_pts_len(q);
                match c.outer {
                    None => {},
                    Some(o) => {
                        o.lemma_tagged_pts_len(q);
                    },
                }
            },
        }
    }

    /// Visit one side of a split during a k-best search, or skip it when
    /// the current worst candidate and the triangle inequality show no
    /// point of it could join the selection.
    fn knn_side<'a>(
        child: &'a VPNode<T>,
        center: Ghost<T>,
        is_inner: bool,
        mu: u64,
        d_center: u64,
        obj: &T,
        n: usize,
        heap: &mut KBest<'a, T>,
    )
        requires
            child.wf(),
            n >= 1,
            old(heap)@.len() <= n,
            d_center == obj.dist(&center@),
            is_inner ==> (forall|p: T|
                #[trigger] child.pts().count(p) > 0 ==> p.dist(&center@) <= mu),
            !is_inner ==> (forall|p: T|
                #[trigger] child.pts().count(p) > 0 ==> p.dist(&center@) >= mu),
        ensures
            picks_best(n as int, old(heap)@.add(child.tagged_pts(*obj)), final(heap)@),
            final(heap)@.len() <= n,
        decreases child, 1int,
    {
        let ghost q = *obj;
        let hl = heap.len();
        if hl == n {
            let dm = heap.max_dist();
            let skip = if is_inner {
                dm <= d_center && d_center - dm >= mu
            } else {
                dm <= mu && mu - dm >= d_center
            };
            if skip {
                proof {
                    if is_inner {
                        lemma_inner_far(q, center@, child.pts(), mu);
                    } else {
                        lemma_outer_far(q, center@, child.pts(), mu);
                    }
                    assert forall|pr: (u64, T)| #[trigger] child.tagged_pts(q).count(pr)
                        > 0 implies pr.0 >= dm by {
                        child.lemma_tagged_pts_count(q, pr.0, pr.1);
                        assert(pr.0 == q.dist(&pr.1) && child.pts().count(pr.1) > 0);
                    }
                    lemma_prune(n as int, heap@, child.tagged_pts(q), dm);
                }
                return ;
            }
        }
        child.nearest_neighbors(obj, n, heap);
    }

    /// Offer this subtree's points to the bounded candidate collection,
    /// visiting the near side of each split first and skipping sides the
    /// triangle inequality proves useless. The collection ends up a
    /// best-`n` selection of what it held plus this subtree's points.
    pub fn nearest_neighbors<'a>(&'a self, obj: &T, n: usize, heap: &mut KBest<'a, T>)
        requires
            self.wf(),
            n >= 1,
            old(heap)@.len() <= n,
        ensures
            picks_best(n as int, old(heap)@.add(self.tagged_pts(*obj)), final(heap)@),
            final(heap)@.len() <= n,
        decreases self, 0int,
    {
        let ghost q = *obj;
        let ghost h0 = heap@;
        let d_center = obj.distance(&self.center);
        heap.offer(n, d_center, &self.center);
        let ghost h1 = heap@;
        let ghost cpair = Multiset::singleton((d_center, self.center));
        proof {
            assert(h0.insert((d_center, self.center)) == h0.add(cpair));
            assert(picks_best(n as int, h0.add(cpair), h1));
        }
        match &self.contents {
            None => {
                proof {
                    assert(self.tagged_pts(q) == cpair.add(Multiset::<(u64, T)>::empty()));
                    assert(h0.add(self.tagged_pts(q)) =~= h0.add(cpair));
                }
            },
            Some(c) => {
                let ghost inner_t = c.inner.tagged_pts(q);
                let ghost outer_t = (match &c.outer {
                    Some(o) => o.tagged_pts(q),
                    None => Multiset::<(u64, T)>::empty(),
                });
                proof {
                    assert(self.tagged_pts(q) == cpair.add(inner_t.add(outer_t)));
                }
                if d_center <= c.mu {
                    Self::knn_side(&c.inner, Ghost(self.center), true, c.mu, d_center, obj, n, heap);
                    let ghost h2 = heap@;
                    match &c.outer {
                        Some(o) => {
                            Self::knn_side(
                                o,
                                Ghost(self.center),
                                false,
                                c.mu,
                                d_center,
                                obj,
                                n,
                                heap,
                            );
                        },
                        None => {
                            proof {
                                lemma_absorb_empty(n as int, h2);
                            }
                        },
                    }
                    let ghost h3 = heap@;
                    proof {
                        lemma_picks_best_chain(n as int, h0, cpair, h1, inner_t, h2);
                        lemma_picks_best_chain(n as int, h0.add(cpair), inner_t, h2, outer_t, h3);
                        assert(h0.add(cpair).add(inner_t).add(outer_t) =~= h0.add(
                            self.tagged_pts(q),
                        ));
                    }
                } else {
                    match &c.outer {
                        Some(o) => {
                            Self::knn_side(
                                o,
                                Ghost(self.center),
                                false,
                                c.mu,
                                d_center,
                                obj,
                                n,
                                heap,
                            );
                        },
                        None => {
                            proof {
                                lemma_absorb_empty(n as int, h1);
                            }
                        },
                    }
                    let ghost h2 = heap@;
                    Self::knn_side(&c.inner, Ghost(self.center), true, c.mu, d_center, obj, n, heap);
                    let ghost h3 = heap@;
                    proof {
                        lemma_picks_best_chain(n as int, h0, cpair, h1, outer_t, h2);
                        lemma_picks_best_chain(n as int, h0.add(cpair), outer_t, h2, inner_t, h3);
                        assert(h0.add(cpair).add(outer_t).add(inner_t) =~= h0.add(
                            self.tagged_pts(q),
                        ));
                    }
                }
            },
        }
    }
}

/// Every candidate's scratch distance is its true distance from `q`,
/// read off the multiset of pairs.
proof fn lemma_entries_tagged_ms<T: MetricItem>(s: Seq<HeapElem<T>>, q: T)
    requires
        forall|m: int| 0 <= m < s.len() ==> #[trigger] s[m].dist == q.dist(s[m].item),
    ensures
        forall|pr: (u64, T)| #[trigger] entries_of(s).count(pr) > 0 ==> pr.0 == q.dist(&pr.1),
{
    let mapped = s.map_values(|e: HeapElem<T>| (e.dist, *e.item));
    assert forall|pr: (u64, T)| #[trigger] entries_of(s).count(pr) > 0 implies pr.0 == q.dist(
        &pr.1,
    ) by {
        assert(mapped.contains(pr));
        let w = mapped.index_of(pr);
        assert(0 <= w < s.len() && mapped[w] == pr);
        assert(pr.0 == s[w].dist && pr.1 == *s[w].item);
    }
}

/// The converse direction: pairwise-correct distances in the multiset
/// give every list position its true distance.
proof fn lemma_entries_tagged_index<T: MetricItem>(s: Seq<HeapElem<T>>, q: T)
    requires
        forall|pr: (u64, T)| #[trigger] entries_of(s).count(pr) > 0 ==> pr.0 == q.dist(&pr.1),
    ensures
        forall|m: int| 0 <= m < s.len() ==> #[trigger] s[m].dist == q.dist(s[m].item),
{
    let mapped = s.map_values(|e: HeapElem<T>| (e.dist, *e.item));
    assert forall|m: int| 0 <= m < s.len() implies #[trigger] s[m].dist == q.dist(s[m].item) by {
        assert(mapped[m] == (s[m].dist, *s[m].item));
        assert(mapped.contains(mapped[m]));
        assert(entries_of(s).count(mapped[m]) > 0);
    }
}

impl<T: MetricItem> VPTree<T> {
    /// The stored points, each paired with its distance from `q`.
    pub closed spec fn tagged(self, q: T) -> Multiset<(u64, T)> {
        self.root.tagged_pts(q)
    }

    /// A pair occurs among `tagged` exactly as often as its point is
    /// stored, and only carrying that point's true distance from `q`.
    pub proof fn lemma_tagged_count(&self, q: T, d: u64, p: T)
        ensures
            self.tagged(q).count((d, p)) == (if d == q.dist(&p) {
                self@.count(p)
            } else {
                0
            }),
    {
        self.root.lemma_tagged_pts_count(q, d, p);
    }

    /// Tagging does not change how many points there are.
    pub proof fn lemma_tagged_len(&self, q: T)
        ensures
            self.tagged(q).len() == self@.len(),
    {
        self.root.lemma_tagged_pts_len(q);
    }

    /// Return all stored points strictly within `radius` of `query`.
    ///
    /// The result is exactly the subset of stored points at distance
    /// `< radius` (a point stored twice is reported twice); with
    /// `sorted` it comes ascending by distance from the query.
    pub fn within_radius(&self, query: &T, radius: u64, sorted: bool) -> (out: Vec<&T>)
        ensures
            out@.map_values(|x: &T| *x).to_multiset() == within_of(*query, self@, radius),
            sorted ==> (forall|a: int, b: int|
                0 <= a <= b < out@.len() ==> query.dist(out@[a]) <= query.dist(out@[b])),
    {
        proof {
            use_type_invariant(&*self);
        }
        let ghost q = *query;
        let mut elems: Vec<HeapElem<T>> = Vec::new();
        self.root.within_radius(query, radius, &mut elems);
        let ghost es1 = elems@;
        proof {
            assert(es1.skip(0) =~= es1);
            assert(items_of(es1) == within_of(q, self@, radius));
            lemma_entries_tagged_ms(es1, q);
        }
        if sorted {
            sort_by_dist(&mut elems);
            proof {
                let fpair = |e: HeapElem<T>| (e.dist, *e.item);
                let proj = |pr: (u64, T)| pr.1;
                lemma_map_values_multiset(es1.map_values(fpair), elems@.map_values(fpair), proj);
                assert(es1.map_values(fpair).map_values(proj) =~= es1.map_values(
                    |e: HeapElem<T>| *e.item,
                ));
                assert(elems@.map_values(fpair).map_values(proj) =~= elems@.map_values(
                    |e: HeapElem<T>| *e.item,
                ));
                assert(items_of(elems@) == within_of(q, self@, radius));
                lemma_entries_tagged_index(elems@, q);
            }
        }
        let mut out: Vec<&T> = Vec::new();
        let mut m: usize = 0;
        while m < elems.len()
            invariant
                m <= elems@.len(),
                out@.len() == m,
                forall|w: int| 0 <= w < m ==> out@[w] == elems@[w].item,
            decreases elems@.len() - m,
        {
            let e = &elems[m];
            out.push(e.item);
            m += 1;
        }
        proof {
            assert(out@.map_values(|x: &T| *x) =~= elems@.map_values(|e: HeapElem<T>| *e.item));
            if sorted {
                assert forall|a: int, b: int| 0 <= a <= b < out@.len() implies query.dist(out@[a])
                    <= query.dist(out@[b]) by {
                    assert(elems@[a].dist == q.dist(elems@[a].item));
                    assert(elems@[b].dist == q.dist(elems@[b].item));
                }
            }
        }
        out
    }

    /// Return the `min(k, size)` stored points closest to `query`.
    ///
    /// The result is a best-`k` selection of the stored points by
    /// distance from the query: nothing kept is farther than anything
    /// left out, and only exact distance ties may differ from any other
    /// such selection. With `sorted` it comes ascending by distance.
    pub fn nearest_neighbors(&self, query: &T, k: usize, sorted: bool) -> (out: Vec<&T>)
        ensures
            out@.len() == (if self@.len() < k {
                self@.len()
            } else {
                k as nat
            }),
            picks_best(
                k as int,
                self.tagged(*query),
                out@.map_values(|x: &T| (query.dist(x), *x)).to_multiset(),
            ),
            sorted ==> (forall|a: int, b: int|
                0 <= a <= b < out@.len() ==> query.dist(out@[a]) <= query.dist(out@[b])),
    {
        proof {
            use_type_invariant(&*self);
        }
        let ghost q = *query;
        if k == 0 {
            let out: Vec<&T> = Vec::new();
            proof {
                assert(out@.map_values(|x: &T| (query.dist(x), *x)) =~= Seq::<(u64, T)>::empty());
                assert(Seq::<(u64, T)>::empty().to_multiset().len() == 0);
                let sel = out@.map_values(|x: &T| (query.dist(x), *x)).to_multiset();
                assert(sel =~= Multiset::<(u64, T)>::empty());
                assert(picks_best(k as int, self.tagged(q), sel));
            }
            return out;
        }
        let mut heap = KBest::new();
        self.root.nearest_neighbors(query, k, &mut heap);
        let ghost hsel = heap@;
        proof {
            assert(Multiset::<(u64, T)>::empty().add(self.root.tagged_pts(q)) =~= self.tagged(q));
            assert(picks_best(k as int, self.tagged(q), hsel));
            self.root.lemma_tagged_pts_len(q);
        }
        let mut elems = heap.into_elems();
        let ghost es1 = elems@;
        proof {
            assert forall|pr: (u64, T)| #[trigger] entries_of(es1).count(pr) > 0 implies pr.0
                == q.dist(&pr.1) by {
                self.root.lemma_tagged_pts_count(q, pr.0, pr.1);
            }
            lemma_entries_tagged_index(es1, q);
            assert(es1.map_values(|e: HeapElem<T>| (e.dist, *e.item)).len() == es1.len());
        }
        if sorted {
            sort_by_dist(&mut elems);
            proof {
                lemma_entries_tagged_index(elems@, q);
            }
        }
        let mut out: Vec<&T> = Vec::new();
        let mut m: usize = 0;
        while m < elems.len()
            invariant
                m <= elems@.len(),
                out@.len() == m,
                forall|w: int| 0 <= w < m ==> out@[w] == elems@[w].item,
            decreases elems@.len() - m,
        {
            let e = &elems[m];
            out.push(e.item);
            m += 1;
        }
        proof {
            assert forall|w: int|
                #![trigger out@[w]]
                0 <= w < out@.len() implies (query.dist(out@[w]), *out@[w]) == (
                elems@[w].dist,
                *elems@[w].item,
            ) by {
                assert(elems@[w].dist == q.dist(elems@[w].item));
            }
            assert(out@.map_values(|x: &T| (query.dist(x), *x)) =~= elems@.map_values(
                |e: HeapElem<T>| (e.dist, *e.item),
            ));
            assert(entries_of(elems@) == hsel);
            assert(out@.len() == elems@.len());
            assert(elems@.map_values(|e: HeapElem<T>| (e.dist, *e.item)).len() == elems@.len());
            assert(out@.len() == hsel.len());
            if sorted {
                assert forall|a: int, b: int| 0 <= a <= b < out@.len() implies query.dist(out@[a])
                    <= query.dist(out@[b]) by {
                    assert(elems@[a].dist == q.dist(elems@[a].item));
                    assert(elems@[b].dist == q.dist(elems@[b].item));
                }
            }
        }
        out
    }

    /// Return the stored point closest to `query`.
    ///
    /// A tree always stores at least one point, so the answer exists;
    /// no stored point is closer to the query than the one returned.
    pub fn nearest_neighbor(&self, query: &T) -> (r: &T)
        ensures
            self@.count(*r) > 0,
            forall|p: T| #[trigger] self@.count(p) > 0 ==> query.dist(r) <= query.dist(&p),
    {
        proof {
            use_type_invariant(&*self);
            self.root.lemma_pts_nonempty();
            self.root.lemma_tagged_pts_len(*query);
        }
        let ghost q = *query;
        let mut heap = KBest::new();
        self.root.nearest_neighbors(query, 1, &mut heap);
        let ghost hsel = heap@;
        proof {
            assert(Multiset::<(u64, T)>::empty().add(self.root.tagged_pts(q)) =~= self.tagged(q));
            assert(picks_best(1int, self.tagged(q), hsel));
            assert(hsel.len() == 1);
        }
        let elems = heap.into_elems();
        proof {
            assert(elems@.map_values(|e: HeapElem<T>| (e.dist, *e.item)).len() == elems@.len());
            assert(elems@.len() == 1);
        }
        let e = &elems[0];
        let ghost epair = (elems@[0].dist, *elems@[0].item);
        proof {
            let mapped = elems@.map_values(|el: HeapElem<T>| (el.dist, *el.item));
            assert(mapped =~= Seq::<(u64, T)>::empty().push(epair));
            assert(Seq::<(u64, T)>::empty().to_multiset().len() == 0);
            assert(hsel =~= Multiset::<(u64, T)>::empty().insert(epair));
            assert(hsel.count(epair) > 0);
            self.root.lemma_tagged_pts_count(q, epair.0, epair.1);
            assert(self.tagged(q).count(epair) > 0);
            assert(epair.0 == q.dist(&epair.1));
            assert(self@.count(epair.1) > 0);
            assert forall|p: T| #[trigger] self@.count(p) > 0 implies query.dist(e.item)
                <= query.dist(&p) by {
                let tp = (q.dist(&p), p);
                self.root.lemma_tagged_pts_count(q, tp.0, tp.1);
                assert(self.tagged(q).count(tp) > 0);
                if hsel.count(tp) > 0 {
                    assert(tp == epair);
                } else {
                    assert(self.tagged(q).sub(hsel).count(tp) > 0);
                    assert(epair.0 <= tp.0);
                }
            }
        }
        e.item
    }
}

} // verus!
