//! Gathering the intersections of a ray and putting them in order of time.
//!
//! Intersections are ordered by the total order on their times (see
//! [`crate::time::rank`]). Sorting is stable: entries with one and the same
//! time keep the order in which they were gathered.

use crate::intersection::{is_hit, lemma_hit_unique, Intersection, Intersections};
use crate::time;
use vstd::prelude::*;

verus! {

/// No entry of `xs` is followed by one with a lower time.
pub open spec fn ascending(xs: Seq<Intersection>) -> bool {
    forall|i: int, j: int|
        0 <= i < j < xs.len() ==> time::rank(#[trigger] xs[i].time) <= time::rank(
            #[trigger] xs[j].time,
        )
}

/// The test "is at time `t`".
pub open spec fn at_time(t: u64) -> spec_fn(Intersection) -> bool {
    |x: Intersection| x.time == t
}

/// `ys` holds the entries of `xs` in ascending order of time, those of
/// equal time in the order they have in `xs`.
pub open spec fn sorts(ys: Seq<Intersection>, xs: Seq<Intersection>) -> bool {
    &&& ascending(ys)
    &&& forall|t: u64| #[trigger] ys.filter(at_time(t)) == xs.filter(at_time(t))
}

/// The intersections of one shape: its times, each paired with the handle.
pub open spec fn tagged(times: Seq<u64>, object: usize) -> Seq<Intersection> {
    Seq::new(times.len(), |i: int| Intersection { time: times[i], object })
}

/// The intersections of the first `n` shapes, shape after shape.
pub open spec fn gathered(per_shape: Seq<Vec<u64>>, n: int) -> Seq<Intersection>
    decreases n,
{
    if n <= 0 {
        Seq::empty()
    } else {
        gathered(per_shape, n - 1) + tagged(per_shape[n - 1]@, (n - 1) as usize)
    }
}

/// Inserting `x` before nothing but later entries leaves the entries at
/// each time in the order that pushing `x` would give.
proof fn lemma_filter_insert(xs: Seq<Intersection>, p: int, x: Intersection, t: u64)
    requires
        0 <= p <= xs.len(),
        forall|j: int| p <= j < xs.len() ==> time::rank(x.time) < time::rank(#[trigger] xs[j].time),
    ensures
        xs.insert(p, x).filter(at_time(t)) == xs.push(x).filter(at_time(t)),
{
    let head = xs.take(p);
    let tail = xs.skip(p);
    let one = seq![x];
    let pred = at_time(t);
    assert(xs.insert(p, x) == head + one + tail);
    assert(xs.push(x) == head + tail + one);
    Seq::filter_distributes_over_add(head + one, tail, pred);
    Seq::filter_distributes_over_add(head, one, pred);
    Seq::filter_distributes_over_add(head + tail, one, pred);
    Seq::filter_distributes_over_add(head, tail, pred);
    if x.time == t {
        assert forall|j: int| 0 <= j < tail.len() implies !pred(#[trigger] tail[j]) by {
            assert(tail[j] == xs[p + j]);
        }
        assert(tail.all(|y: Intersection| !pred(y)));
        tail.lemma_all_neg_filter_empty(pred);
        assert(tail.filter(pred) == Seq::<Intersection>::empty());
        assert(head.filter(pred) + one.filter(pred) + tail.filter(pred) == head.filter(pred)
            + tail.filter(pred) + one.filter(pred));
    } else {
        assert(one == Seq::<Intersection>::empty().push(x));
        Seq::<Intersection>::empty().lemma_filter_push(x, pred);
        assert(Seq::<Intersection>::empty().filter(pred).len() == 0) by {
            Seq::<Intersection>::empty().lemma_filter_len(pred);
        }
        assert(one.filter(pred) == Seq::<Intersection>::empty());
        assert(head.filter(pred) + one.filter(pred) + tail.filter(pred) == head.filter(pred)
            + tail.filter(pred) + one.filter(pred));
    }
}

impl Intersections {
    /// Puts the intersections in ascending order of time, keeping the
    /// order of those with equal time.
    pub fn sort(&mut self)
        ensures
            sorts(final(self)@, old(self)@),
            final(self)@.to_multiset() == old(self)@.to_multiset(),
    {
        let mut out: Vec<Intersection> = Vec::new();
        let mut k: usize = 0;
        assert(self@.take(0) == out@);
        while k < self.0.len()
            invariant
                k <= self@.len(),
                self@ == old(self)@,
                sorts(out@, self@.take(k as int)),
                out@.to_multiset() == self@.take(k as int).to_multiset(),
                out@.len() == k,
            decreases self@.len() - k,
        {
            let x: Intersection = self.0[k];
            let r: i64 = time::total_rank(x.time);
            let mut p: usize = out.len();
            while p > 0 && time::total_rank(out[p - 1].time) > r
                invariant
                    p <= out@.len(),
                    r == time::rank(x.time),
                    forall|j: int| p <= j < out@.len() ==> r < time::rank(#[trigger] out@[j].time),
                decreases p,
            {
                p -= 1;
            }
            proof {
                let before = out@;
                let after = before.insert(p as int, x);
                let seen = self@.take(k as int);
                assert(self@.take(k + 1) == seen.push(x));
                before.insert_ensures(p as int, x);
                assert(ascending(after)) by {
                    assert forall|i: int, j: int| 0 <= i < j < after.len() implies time::rank(
                        #[trigger] after[i].time,
                    ) <= time::rank(#[trigger] after[j].time) by {
                        if j < p {
                            assert(after[i] == before[i] && after[j] == before[j]);
                        } else if j == p {
                            assert(after[i] == before[i]);
                            if p > 0 {
                                assert(time::rank(before[i].time) <= time::rank(
                                    before[p - 1].time,
                                ));
                            }
                        } else if i < p {
                            assert(after[i] == before[i] && after[j] == before[j - 1]);
                        } else if i == p {
                            assert(after[j] == before[j - 1]);
                        } else {
                            assert(after[i] == before[i - 1] && after[j] == before[j - 1]);
                        }
                    }
                }
                assert forall|t: u64| #[trigger]
                    after.filter(at_time(t)) == seen.push(x).filter(at_time(t)) by {
                    lemma_filter_insert(before, p as int, x, t);
                    before.lemma_filter_push(x, at_time(t));
                    seen.lemma_filter_push(x, at_time(t));
                    assert(before.filter(at_time(t)) == seen.filter(at_time(t)));
                }
                lemma_insert_keeps_entries(before, p as int, seen, x);
            }
            out.insert(p, x);
            k += 1;
        }
        assert(self@.take(k as int) == self@);
        self.0 = out;
    }
}

impl Intersections {
    /// The intersections of the shape `object`, one for each of `times`.
    pub fn for_shape(object: usize, times: &Vec<u64>) -> (xs: Self)
        ensures
            xs@ == tagged(times@, object),
    {
        let mut out: Vec<Intersection> = Vec::new();
        let mut i: usize = 0;
        while i < times.len()
            invariant
                i <= times@.len(),
                out@ == tagged(times@, object).take(i as int),
            decreases times@.len() - i,
        {
            out.push(Intersection::new(times[i], object));
            i += 1;
            assert(out@ == tagged(times@, object).take(i as int));
        }
        assert(tagged(times@, object).take(i as int) == tagged(times@, object));
        Intersections(out)
    }

    /// All intersections of a ray with a scene, in ascending order of time.
    ///
    /// `per_shape[s]` holds the times at which the ray crosses the shape
    /// with handle `s`. Crossings at one and the same time stay in the
    /// order of their shapes.
    pub fn gather(per_shape: &Vec<Vec<u64>>) -> (xs: Self)
        ensures
            sorts(xs@, gathered(per_shape@, per_shape@.len() as int)),
            xs@.to_multiset() == gathered(per_shape@, per_shape@.len() as int).to_multiset(),
    {
        let mut all: Vec<Intersection> = Vec::new();
        let mut s: usize = 0;
        while s < per_shape.len()
            invariant
                s <= per_shape@.len(),
                all@ == gathered(per_shape@, s as int),
            decreases per_shape@.len() - s,
        {
            let times: &Vec<u64> = &per_shape[s];
            let ghost part = tagged(times@, s);
            let ghost done = all@;
            let mut i: usize = 0;
            while i < times.len()
                invariant
                    i <= times@.len(),
                    part == tagged(times@, s),
                    all@ == done + part.take(i as int),
                decreases times@.len() - i,
            {
                all.push(Intersection::new(times[i], s));
                i += 1;
                assert(all@ == done + part.take(i as int));
            }
            assert(part.take(i as int) == part);
            s += 1;
        }
        let mut xs = Intersections(all);
        xs.sort();
        xs
    }

    /// Whether the ray strikes anything before it has gone as far as
    /// `distance`: whether there is a hit, at a time that is numerically
    /// less than `distance`.
    pub fn hit_before(&self, distance: u64) -> (r: bool)
        ensures
            r == exists|i: int| is_hit(self@, i) && time::less(self@[i].time, distance),
    {
        match self.hit_index() {
            Some(i) => {
                proof {
                    assert forall|j: int| is_hit(self@, j) implies j == i by {
                        lemma_hit_unique(self@, i as int, j);
                    }
                }
                time::is_less(self.0[i].time, distance)
            },
            None => false,
        }
    }
}

/// Sorting has one result: two sequences that both hold the entries of
/// `xs` in ascending order, those of equal time in the order of `xs`, are
/// the same sequence.
pub proof fn lemma_sorts_unique(
    xs: Seq<Intersection>,
    ys: Seq<Intersection>,
    zs: Seq<Intersection>,
)
    requires
        sorts(ys, xs),
        sorts(zs, xs),
    ensures
        ys == zs,
{
    assert(agree(ys, zs)) by {
        assert forall|t: u64| #[trigger] ys.filter(at_time(t)) == zs.filter(at_time(t)) by {
            assert(zs.filter(at_time(t)) == xs.filter(at_time(t)));
        }
    }
    lemma_same_groups(ys, zs);
}

/// `ys` and `zs` hold the same entries in the same order at every time.
spec fn agree(ys: Seq<Intersection>, zs: Seq<Intersection>) -> bool {
    forall|t: u64| #[trigger] ys.filter(at_time(t)) == zs.filter(at_time(t))
}

/// An entry of `zs` is an entry of `ys` where the two agree.
proof fn lemma_shared_entry(ys: Seq<Intersection>, zs: Seq<Intersection>, i: int)
    requires
        0 <= i < zs.len(),
        ys.filter(at_time(zs[i].time)) == zs.filter(at_time(zs[i].time)),
    ensures
        ys.contains(zs[i]),
{
    let p = at_time(zs[i].time);
    zs.lemma_filter_contains(p, i);
    ys.lemma_filter_contains_rev(p, zs[i]);
}

/// Where two sequences that end at the same time agree at time `t`, so do
/// they without their last entries, and if `t` is that time, the last
/// entries are the same.
proof fn lemma_without_last(
    ys: Seq<Intersection>,
    y: Intersection,
    zs: Seq<Intersection>,
    z: Intersection,
    t: u64,
)
    requires
        y.time == z.time,
        ys.push(y).filter(at_time(t)) == zs.push(z).filter(at_time(t)),
    ensures
        ys.filter(at_time(t)) == zs.filter(at_time(t)),
        t == y.time ==> y == z,
{
    let p = at_time(t);
    ys.lemma_filter_push(y, p);
    zs.lemma_filter_push(z, p);
    if t == y.time {
        assert(ys.filter(p).push(y).last() == y);
        assert(zs.filter(p).push(z).last() == z);
        assert(ys.filter(p) == ys.filter(p).push(y).drop_last());
        assert(zs.filter(p) == zs.filter(p).push(z).drop_last());
    }
}

/// An ascending sequence stays ascending without its last entry, which
/// has the highest time.
proof fn lemma_ascending_prefix(ys: Seq<Intersection>)
    requires
        ascending(ys),
        ys.len() > 0,
    ensures
        ascending(ys.drop_last()),
        forall|i: int| 0 <= i < ys.len() ==> time::rank(#[trigger] ys[i].time) <= time::rank(ys.last().time),
{
    let ys1 = ys.drop_last();
    assert forall|a: int, b: int| 0 <= a < b < ys1.len() implies time::rank(
        #[trigger] ys1[a].time,
    ) <= time::rank(#[trigger] ys1[b].time) by {
        assert(ys1[a] == ys[a] && ys1[b] == ys[b]);
    }
    assert forall|i: int| 0 <= i < ys.len() implies time::rank(#[trigger] ys[i].time) <= time::rank(ys.last().time) by {
        if i < ys.len() - 1 {
            assert(time::rank(ys[i].time) <= time::rank(ys[ys.len() - 1].time));
        }
    }
}

/// Two ascending sequences that agree are the same sequence.
proof fn lemma_same_groups(ys: Seq<Intersection>, zs: Seq<Intersection>)
    requires
        ascending(ys),
        ascending(zs),
        agree(ys, zs),
    ensures
        ys == zs,
    decreases ys.len(),
{
    if ys.len() == 0 {
        if zs.len() > 0 {
            assert(ys.filter(at_time(zs[0].time)) == zs.filter(at_time(zs[0].time)));
            lemma_shared_entry(ys, zs, 0);
        }
        assert(ys =~= zs);
    } else {
        let y = ys.last();
        assert(ys.filter(at_time(y.time)) == zs.filter(at_time(y.time)));
        lemma_shared_entry(zs, ys, ys.len() - 1);
        let z = zs.last();
        assert(ys.filter(at_time(z.time)) == zs.filter(at_time(z.time)));
        lemma_shared_entry(ys, zs, zs.len() - 1);
        lemma_ascending_prefix(ys);
        lemma_ascending_prefix(zs);
        let i = choose|i: int| 0 <= i < ys.len() && ys[i] == z;
        let j = choose|j: int| 0 <= j < zs.len() && zs[j] == y;
        assert(time::rank(ys[i].time) <= time::rank(y.time));
        assert(time::rank(zs[j].time) <= time::rank(z.time));
        time::lemma_rank_injective(y.time, z.time);
        let ys1 = ys.drop_last();
        let zs1 = zs.drop_last();
        assert(ys == ys1.push(y));
        assert(zs == zs1.push(z));
        assert forall|t: u64| #[trigger] ys1.filter(at_time(t)) == zs1.filter(at_time(t)) by {
            assert(ys.filter(at_time(t)) == zs.filter(at_time(t)));
            lemma_without_last(ys1, y, zs1, z, t);
        }
        assert(ys.filter(at_time(y.time)) == zs.filter(at_time(y.time)));
        lemma_without_last(ys1, y, zs1, z, y.time);
        lemma_same_groups(ys1, zs1);
    }
}

/// In ascending order the hit is the first entry with a positive time.
pub proof fn lemma_hit_of_ascending(xs: Seq<Intersection>, i: int)
    requires
        ascending(xs),
        is_hit(xs, i),
    ensures
        forall|j: int| 0 <= j < i ==> !time::positive(#[trigger] xs[j].time),
{
    assert forall|j: int| 0 <= j < i implies !time::positive(#[trigger] xs[j].time) by {
        if time::positive(xs[j].time) {
            time::lemma_positive_order(xs[i].time, xs[j].time);
            assert(time::rank(xs[j].time) <= time::rank(xs[i].time));
        }
    }
}

/// Inserting an entry anywhere adds the same entry as pushing it.
proof fn lemma_insert_keeps_entries(
    before: Seq<Intersection>,
    p: int,
    seen: Seq<Intersection>,
    x: Intersection,
)
    requires
        0 <= p <= before.len(),
        before.to_multiset() == seen.to_multiset(),
    ensures
        before.insert(p, x).to_multiset() == seen.push(x).to_multiset(),
{
    vstd::seq_lib::to_multiset_insert(before, p, x);
    vstd::seq_lib::to_multiset_build(seen, x);
}

} // verus!
