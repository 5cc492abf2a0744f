//! Intersections of one ray with the shapes of a scene.
//!
//! An intersection pairs a ray parameter with the shape that was struck.
//! The shape is a handle, an index into the scene's table of shapes, and
//! the parameter is the bit pattern of a double (see [`crate::time`]).

use crate::time;
use vstd::prelude::*;
use vstd::std_specs::cmp::PartialEqSpecImpl;

verus! {

/// One crossing of a ray with the surface of a shape.
#[derive(Debug, Clone, Copy)]
pub struct Intersection {
    /// The ray parameter of the crossing, as the bits of a double.
    pub time: u64,
    /// The handle of the shape that was struck.
    pub object: usize,
}

/// What `==` means on intersections: the same shape, struck at the same
/// number. An intersection whose time is a NaN equals nothing, itself
/// included.
pub open spec fn same(a: Intersection, b: Intersection) -> bool {
    time::equal(a.time, b.time) && a.object == b.object
}

impl PartialEq for Intersection {
    fn eq(&self, other: &Self) -> (r: bool) {
        time::is_equal(self.time, other.time) && self.object == other.object
    }
}

impl PartialEqSpecImpl for Intersection {
    open spec fn obeys_eq_spec() -> bool {
        true
    }

    open spec fn eq_spec(&self, other: &Self) -> bool {
        same(*self, *other)
    }
}

impl Intersection {
    pub fn new(t: u64, s: usize) -> (i: Self)
        ensures
            i.time == t,
            i.object == s,
    {
        Self { time: t, object: s }
    }
}

/// The intersections of one ray, in the order in which they were gathered.
pub struct Intersections(pub Vec<Intersection>);

impl View for Intersections {
    type V = Seq<Intersection>;

    open spec fn view(&self) -> Seq<Intersection> {
        self.0@
    }
}

/// `xs[i]` is the hit: its time is positive, no positive time in `xs` is
/// less, and every positive time before it is greater.
pub open spec fn is_hit(xs: Seq<Intersection>, i: int) -> bool {
    &&& 0 <= i < xs.len()
    &&& time::positive(xs[i].time)
    &&& forall|j: int|
        0 <= j < xs.len() && time::positive(#[trigger] xs[j].time) ==> if j < i {
            time::less(xs[i].time, xs[j].time)
        } else {
            !time::less(xs[j].time, xs[i].time)
        }
}

/// No entry of `xs` has a positive time.
pub open spec fn no_hit(xs: Seq<Intersection>) -> bool {
    forall|j: int| 0 <= j < xs.len() ==> !time::positive(#[trigger] xs[j].time)
}

impl Intersections {
    pub fn new(i: Vec<Intersection>) -> (xs: Self)
        ensures
            xs@ == i@,
    {
        Self(i)
    }

    pub fn new_none() -> (xs: Self)
        ensures
            xs@ == Seq::<Intersection>::empty(),
    {
        Self(Vec::new())
    }

    pub fn data(&self) -> (d: &Vec<Intersection>)
        ensures
            d@ == self@,
    {
        &self.0
    }

    pub fn len(&self) -> (n: usize)
        ensures
            n == self@.len(),
    {
        self.0.len()
    }

    pub fn into_inner(self) -> (d: Vec<Intersection>)
        ensures
            d@ == self@,
    {
        self.0
    }

    /// The entry at `index`.
    pub fn at(&self, index: usize) -> (x: &Intersection)
        requires
            index < self@.len(),
        ensures
            *x == self@[index as int],
    {
        &self.0[index]
    }

    /// The index of the hit: the first intersection with the smallest
    /// strictly positive time, or `None` where no time is positive.
    pub fn hit_index(&self) -> (r: Option<usize>)
        ensures
            match r {
                Some(i) => is_hit(self@, i as int),
                None => no_hit(self@),
            },
    {
        let mut best: Option<usize> = None;
        let mut k: usize = 0;
        while k < self.0.len()
            invariant
                k <= self@.len(),
                match best {
                    Some(i) => i < k && is_hit(self@.take(k as int), i as int),
                    None => no_hit(self@.take(k as int)),
                },
            decreases self@.len() - k,
        {
            let t: u64 = self.0[k].time;
            let ghost before = self@.take(k as int);
            let ghost after = self@.take(k + 1);
            assert(forall|j: int| 0 <= j < k ==> before[j] == after[j]);
            assert(after[k as int] == self@[k as int]);
            if time::is_positive(t) {
                match best {
                    Some(i) => {
                        if t < self.0[i].time {
                            best = Some(k);
                        }
                    },
                    None => {
                        best = Some(k);
                    },
                }
            }
            k += 1;
        }
        assert(self@.take(k as int) == self@);
        best
    }

    /// The hit itself: see [`Intersections::hit_index`].
    pub fn hit(&self) -> (r: Option<&Intersection>)
        ensures
            match r {
                Some(h) => exists|i: int| is_hit(self@, i) && *h == self@[i],
                None => no_hit(self@),
            },
    {
        match self.hit_index() {
            Some(i) => Some(&self.0[i]),
            None => None,
        }
    }
}

/// What is known of a hit before any shading: the intersection itself and
/// the media that meet at its surface.
#[derive(Debug, Clone, Copy)]
pub struct Computations {
    /// The intersection these were prepared for.
    pub i: Intersection,
    /// The medium the ray leaves and the medium it enters, each the handle
    /// of the shape whose material fills it, or `None` for empty space.
    pub n: (Option<usize>, Option<usize>),
}

/// The container stack after a ray crosses the surface of `s`: the ray
/// leaves `s` if it was inside, and `s` goes; otherwise it enters `s`,
/// which becomes the innermost container.
pub open spec fn toggle(stack: Seq<usize>, s: usize) -> Seq<usize> {
    match stack.index_of_first(s) {
        Some(i) => stack.remove(i),
        None => stack.push(s),
    }
}

/// The shapes that enclose the ray after the first `k` intersections of
/// `xs`, outermost first.
pub open spec fn containers(xs: Seq<Intersection>, k: int) -> Seq<usize>
    decreases k,
{
    if k <= 0 {
        Seq::empty()
    } else {
        toggle(containers(xs, k - 1), xs[k - 1].object)
    }
}

/// The innermost container, if there is one.
pub open spec fn innermost(stack: Seq<usize>) -> Option<usize> {
    if stack.len() == 0 {
        None
    } else {
        Some(stack.last())
    }
}

/// The media on either side of intersection `k` of `xs`.
pub open spec fn media(xs: Seq<Intersection>, k: int) -> (Option<usize>, Option<usize>) {
    (innermost(containers(xs, k)), innermost(containers(xs, k + 1)))
}

/// `k` is the first index at which `xs` holds an intersection equal to `q`.
pub open spec fn is_query(xs: Seq<Intersection>, q: Intersection, k: int) -> bool {
    &&& 0 <= k < xs.len()
    &&& same(q, xs[k])
    &&& forall|j: int| 0 <= j < k ==> !same(q, #[trigger] xs[j])
}

/// How often the ray crosses the surface of `s` within the first `k`
/// intersections of `xs`.
pub open spec fn crossings(xs: Seq<Intersection>, k: int, s: usize) -> nat
    decreases k,
{
    if k <= 0 {
        0
    } else {
        crossings(xs, k - 1, s) + if xs[k - 1].object == s {
            1nat
        } else {
            0nat
        }
    }
}

fn innermost_of(stack: &Vec<usize>) -> (r: Option<usize>)
    ensures
        r == innermost(stack@),
{
    if stack.len() == 0 {
        None
    } else {
        Some(stack[stack.len() - 1])
    }
}

fn toggle_container(stack: &mut Vec<usize>, s: usize)
    ensures
        final(stack)@ == toggle(old(stack)@, s),
{
    let mut at: usize = 0;
    while at < stack.len()
        invariant
            at <= stack@.len(),
            stack@ == old(stack)@,
            forall|j: int| 0 <= j < at ==> stack@[j] != s,
        decreases stack@.len() - at,
    {
        if stack[at] == s {
            proof {
                stack@.index_of_first_ensures(s);
                assert(stack@.contains(s));
            }
            stack.remove(at);
            return ;
        }
        at += 1;
    }
    proof {
        stack@.index_of_first_ensures(s);
    }
    stack.push(s);
}

impl Intersection {
    /// Finds the media that meet at this intersection, which is looked up
    /// in `xs`, the intersections of its ray. They are the media that the
    /// ray passes through if `xs` is in ascending order of time.
    ///
    /// The entries of `xs` are walked in order while a stack of entered
    /// shapes is kept; the first entry equal to `self` is the query. The
    /// medium before it is the innermost container on reaching it, the
    /// medium after it the innermost one once its own shape was entered or
    /// left. Where `xs` holds no entry equal to `self`, both are empty space.
    pub fn prepare_computations(&self, xs: &Intersections) -> (c: Computations)
        ensures
            c.i == *self,
            forall|k: int| is_query(xs@, *self, k) ==> c.n == media(xs@, k),
            (forall|k: int| 0 <= k < xs@.len() ==> !same(*self, #[trigger] xs@[k])) ==> c.n == (
                None::<usize>,
                None::<usize>,
            ),
    {
        let mut stack: Vec<usize> = Vec::new();
        let mut k: usize = 0;
        while k < xs.0.len()
            invariant
                k <= xs@.len(),
                stack@ == containers(xs@, k as int),
                forall|j: int| 0 <= j < k ==> !same(*self, #[trigger] xs@[j]),
            decreases xs@.len() - k,
        {
            let x: Intersection = xs.0[k];
            let found: bool = self.eq(&x);
            let n1: Option<usize> = innermost_of(&stack);
            toggle_container(&mut stack, x.object);
            assert(stack@ == containers(xs@, k + 1));
            if found {
                let n2: Option<usize> = innermost_of(&stack);
                assert(is_query(xs@, *self, k as int));
                return Computations { i: *self, n: (n1, n2) };
            }
            k += 1;
        }
        Computations { i: *self, n: (None, None) }
    }
}

/// Crossing a surface changes the stack for that shape alone, and keeps it
/// free of repetitions.
pub proof fn lemma_toggle(stack: Seq<usize>, s: usize)
    requires
        stack.no_duplicates(),
    ensures
        toggle(stack, s).no_duplicates(),
        toggle(stack, s).contains(s) == !stack.contains(s),
        forall|t: usize| t != s ==> toggle(stack, s).contains(t) == stack.contains(t),
{
    stack.index_of_first_ensures(s);
    let next = toggle(stack, s);
    match stack.index_of_first(s) {
        Some(i) => {
            assert forall|a: int| 0 <= a < next.len() implies #[trigger] next[a] == stack[if a
                < i {
                a
            } else {
                a + 1
            }] by {}
            assert forall|t: usize| t != s && stack.contains(t) implies next.contains(t) by {
                let m = choose|m: int| 0 <= m < stack.len() && stack[m] == t;
                if m < i {
                    assert(next[m] == t);
                } else {
                    assert(next[m - 1] == t);
                }
            }
            assert(!next.contains(s));
        },
        None => {
            assert forall|t: usize| t != s && stack.contains(t) implies next.contains(t) by {
                let m = choose|m: int| 0 <= m < stack.len() && stack[m] == t;
                assert(next[m] == t);
            }
            assert(next[stack.len() as int] == s);
        },
    }
}

/// No shape is on the container stack twice.
pub proof fn lemma_containers_distinct(xs: Seq<Intersection>, k: int)
    ensures
        containers(xs, k).no_duplicates(),
    decreases k,
{
    if k > 0 {
        lemma_containers_distinct(xs, k - 1);
        lemma_toggle(containers(xs, k - 1), xs[k - 1].object);
    }
}

/// A shape encloses the ray exactly when the ray has crossed its surface
/// an odd number of times.
pub proof fn lemma_containers_parity(xs: Seq<Intersection>, k: int, s: usize)
    ensures
        containers(xs, k).contains(s) <==> crossings(xs, k, s) % 2 == 1,
    decreases k,
{
    if k > 0 {
        lemma_containers_parity(xs, k - 1, s);
        lemma_containers_distinct(xs, k - 1);
        lemma_toggle(containers(xs, k - 1), xs[k - 1].object);
    }
}

/// Once the ray has left every shape that it entered, it is in empty space.
pub proof fn lemma_containers_empty(xs: Seq<Intersection>, k: int)
    requires
        forall|s: usize| crossings(xs, k, s) % 2 == 0,
    ensures
        containers(xs, k).len() == 0,
{
    let stack = containers(xs, k);
    if stack.len() > 0 {
        lemma_containers_parity(xs, k, stack[0]);
        assert(stack.contains(stack[0]));
    }
}

/// The medium that the ray enters at one intersection is the medium that
/// it leaves at the next.
pub proof fn lemma_media_continuous(xs: Seq<Intersection>, k: int)
    ensures
        media(xs, k).1 == media(xs, k + 1).0,
{
}

/// A sequence has at most one hit.
pub proof fn lemma_hit_unique(xs: Seq<Intersection>, i: int, j: int)
    requires
        is_hit(xs, i),
        is_hit(xs, j),
    ensures
        i == j,
{
}

/// A sequence has a hit exactly when one of its times is positive.
pub proof fn lemma_hit_exists(xs: Seq<Intersection>)
    ensures
        no_hit(xs) <==> !exists|i: int| is_hit(xs, i),
{
    if !no_hit(xs) {
        let j = choose|j: int| 0 <= j < xs.len() && time::positive(#[trigger] xs[j].time);
        lemma_least_positive(xs, xs.len() as int, j);
        assert(xs.take(xs.len() as int) == xs);
    }
}

/// Among the first `n` entries, of which entry `j` is positive, some entry
/// is the hit of those `n`.
proof fn lemma_least_positive(xs: Seq<Intersection>, n: int, j: int)
    requires
        0 <= j < n <= xs.len(),
        time::positive(xs[j].time),
    ensures
        exists|i: int| is_hit(xs.take(n), i),
    decreases n,
{
    let head = xs.take(n - 1);
    let all = xs.take(n);
    assert(forall|m: int| 0 <= m < n - 1 ==> head[m] == all[m]);
    if j < n - 1 {
        lemma_least_positive(xs, n - 1, j);
        let i = choose|i: int| is_hit(head, i);
        if time::positive(all[n - 1].time) && all[n - 1].time < all[i].time {
            assert(is_hit(all, n - 1));
        } else {
            assert(is_hit(all, i));
        }
    } else if exists|m: int| 0 <= m < n - 1 && time::positive(#[trigger] xs[m].time) {
        let m = choose|m: int| 0 <= m < n - 1 && time::positive(#[trigger] xs[m].time);
        lemma_least_positive(xs, n - 1, m);
        let i = choose|i: int| is_hit(head, i);
        if all[n - 1].time < all[i].time {
            assert(is_hit(all, n - 1));
        } else {
            assert(is_hit(all, i));
        }
    } else {
        assert(is_hit(all, n - 1));
    }
}

} // verus!
