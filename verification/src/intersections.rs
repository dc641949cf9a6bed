use vstd::prelude::*;

verus! {

/// A place where a ray meets a shape.
///
/// `t` says where along the ray the place lies, as an ordered key: two keys
/// compare as the distances from the ray's origin do, and a key is negative
/// exactly when the place lies behind the origin. `object` is the handle of
/// the shape that was met.
#[derive(Clone, Copy, Debug, PartialEq, Eq, Structural)]
pub struct Intersection {
    pub t: i64,
    pub object: usize,
}

impl Intersection {
    /// The intersection with the key `t` on the shape with the handle `object`.
    pub fn new(t: i64, object: usize) -> (i: Intersection)
        ensures
            i == (Intersection { t, object }),
    {
        Intersection { t, object }
    }
}

/// No intersection stands before one with a smaller key.
pub open spec fn ascending(xs: Seq<Intersection>) -> bool {
    forall|i: int, j: int| 0 <= i < j < xs.len() ==> xs[i].t <= xs[j].t
}

/// The intersections of `xs` with the key `t`, in the order in which they stand in `xs`.
pub open spec fn with_key(xs: Seq<Intersection>, t: i64) -> Seq<Intersection> {
    xs.filter(|x: Intersection| x.t == t)
}

/// Whether `xs[i]` is the hit of `xs`: the first of the intersections with the
/// smallest key that is not negative.
pub open spec fn is_hit(xs: Seq<Intersection>, i: int) -> bool {
    &&& 0 <= i < xs.len()
    &&& xs[i].t >= 0
    &&& forall|j: int| 0 <= j < xs.len() && xs[j].t >= 0 ==> xs[i].t <= xs[j].t
    &&& forall|j: int| 0 <= j < i && xs[j].t >= 0 ==> xs[i].t < xs[j].t
}

/// The hit of `xs`, where it has one.
pub open spec fn hit_of(xs: Seq<Intersection>) -> Option<Intersection> {
    if exists|i: int| is_hit(xs, i) {
        Some(xs[choose|i: int| is_hit(xs, i)])
    } else {
        None
    }
}

/// Whether every intersection of `xs` lies behind the ray's origin.
pub open spec fn all_behind(xs: Seq<Intersection>) -> bool {
    forall|j: int| 0 <= j < xs.len() ==> xs[j].t < 0
}

/// The same intersections in ascending order of their keys. Intersections with
/// equal keys keep the order in which they came.
pub fn intersections(xs: Vec<Intersection>) -> (sorted: Vec<Intersection>)
    ensures
        ascending(sorted@),
        forall|t: i64| with_key(sorted@, t) == with_key(xs@, t),
        sorted@.to_multiset() == xs@.to_multiset(),
        sorted@.len() == xs@.len(),
{
    let mut v: Vec<Intersection> = Vec::new();
    let mut i: usize = 0;
    assert(xs@.take(0) =~= v@);
    while i < xs.len()
        invariant
            i <= xs@.len(),
            v@.len() == i,
            ascending(v@),
            forall|t: i64| with_key(v@, t) == with_key(xs@.take(i as int), t),
            v@.to_multiset() == xs@.take(i as int).to_multiset(),
        decreases xs@.len() - i,
    {
        let x = xs[i];
        let mut at: usize = v.len();
        while at > 0 && v[at - 1].t > x.t
            invariant
                at <= v@.len(),
                forall|j: int| at <= j < v@.len() ==> v@[j].t > x.t,
            decreases at,
        {
            at -= 1;
        }
        let ghost before = v@;
        v.insert(at, x);
        proof {
            let seen = xs@.take(i as int);
            assert(xs@.take(i + 1) =~= seen.push(x));
            assert(v@ =~= before.subrange(0, at as int).push(x) + before.subrange(
                at as int,
                before.len() as int,
            ));
            assert forall|a: int, b: int| 0 <= a < b < v@.len() implies v@[a].t <= v@[b].t by {
                if a < at && b > at {
                    assert(v@[a] == before[a]);
                    assert(v@[b] == before[b - 1]);
                } else if a < at && b == at {
                    assert(v@[a] == before[a]);
                    assert(before[a].t <= before[at - 1].t);
                } else if a < at {
                    assert(v@[a] == before[a]);
                    assert(v@[b] == before[b]);
                } else if a == at {
                    assert(v@[b] == before[b - 1]);
                } else {
                    assert(v@[a] == before[a - 1]);
                    assert(v@[b] == before[b - 1]);
                }
            }
            assert forall|t: i64| with_key(v@, t) == with_key(xs@.take(i + 1), t) by {
                lemma_with_key_insert(before, at as int, x, t);
                lemma_with_key_push(before, x, t);
                lemma_with_key_push(seen, x, t);
                assert(with_key(before, t) == with_key(seen, t));
            }
            vstd::seq_lib::to_multiset_insert(before, at as int, x);
            vstd::seq_lib::to_multiset_build(seen, x);
        }
        i += 1;
    }
    assert(xs@.take(i as int) =~= xs@);
    v
}

/// The hit among `xs`: the intersection with the smallest key that is not
/// negative, and the first of them where several share that key. There is none
/// where every intersection lies behind the ray's origin.
pub fn hit(xs: Vec<Intersection>) -> (found: Option<Intersection>)
    ensures
        found == hit_of(xs@),
        match found {
            Some(h) => exists|i: int| is_hit(xs@, i) && xs@[i] == h,
            None => all_behind(xs@),
        },
{
    let mut best: Option<Intersection> = None;
    let ghost mut best_at: int = 0;
    let mut i: usize = 0;
    while i < xs.len()
        invariant
            i <= xs@.len(),
            match best {
                Some(h) => is_hit(xs@.take(i as int), best_at) && xs@[best_at] == h,
                None => all_behind(xs@.take(i as int)),
            },
        decreases xs@.len() - i,
    {
        let x = xs[i];
        let ghost seen = xs@.take(i as int);
        let ghost next = xs@.take(i + 1);
        assert(forall|j: int| 0 <= j < seen.len() ==> seen[j] == next[j]);
        if x.t >= 0 {
            match best {
                Some(h) => {
                    if x.t < h.t {
                        best = Some(x);
                        proof {
                            best_at = i as int;
                        }
                    }
                },
                None => {
                    best = Some(x);
                    proof {
                        best_at = i as int;
                    }
                },
            }
        }
        i += 1;
    }
    assert(xs@.take(i as int) =~= xs@);
    proof {
        if best.is_some() {
            let chosen = choose|i: int| is_hit(xs@, i);
            lemma_hit_is_unique(xs@, chosen, best_at);
        }
    }
    best
}

/// On intersections in ascending order the hit is the first one whose key is
/// not negative.
pub proof fn lemma_hit_of_ascending(xs: Seq<Intersection>, i: int)
    requires
        ascending(xs),
        0 <= i < xs.len(),
        xs[i].t >= 0,
        forall|m: int| 0 <= m < i ==> xs[m].t < 0,
    ensures
        is_hit(xs, i),
{
}

/// No sequence of intersections has two hits.
pub proof fn lemma_hit_is_unique(xs: Seq<Intersection>, i: int, j: int)
    requires
        is_hit(xs, i),
        is_hit(xs, j),
    ensures
        i == j,
{
}

/// The hit of `xs` is the hit of `xs` sorted.
pub proof fn lemma_sorting_keeps_hit(xs: Seq<Intersection>, sorted: Seq<Intersection>, i: int)
    requires
        ascending(sorted),
        forall|t: i64| with_key(sorted, t) == with_key(xs, t),
        is_hit(xs, i),
    ensures
        exists|j: int| is_hit(sorted, j) && sorted[j] == xs[i],
{
    let t = xs[i].t;
    lemma_with_key_first(xs, i);
    assert(with_key(sorted, t) == with_key(xs, t));
    let j = lemma_with_key_found(sorted, t);
    assert forall|m: int| 0 <= m < sorted.len() && sorted[m].t >= 0 implies t <= sorted[m].t by {
        let first = lemma_first_index(sorted, m);
        lemma_with_key_first(sorted, first);
        assert(with_key(sorted, sorted[m].t) == with_key(xs, sorted[m].t));
        lemma_with_key_found(xs, sorted[m].t);
    }
    assert(is_hit(sorted, j));
}

/// Intersections of which one does not lie behind the ray's origin have a hit.
pub proof fn lemma_hit_exists(xs: Seq<Intersection>, n: int) -> (i: int)
    requires
        0 <= n < xs.len(),
        xs[n].t >= 0,
    ensures
        is_hit(xs, i),
    decreases xs.len(),
{
    let earlier = xs.drop_last();
    let last = xs.len() - 1;
    if exists|m: int| 0 <= m < earlier.len() && earlier[m].t >= 0 {
        let m = choose|m: int| 0 <= m < earlier.len() && earlier[m].t >= 0;
        let i = lemma_hit_exists(earlier, m);
        assert(forall|j: int| 0 <= j < earlier.len() ==> earlier[j] == xs[j]);
        if xs[last].t >= 0 && xs[last].t < xs[i].t {
            last
        } else {
            i
        }
    } else {
        assert(forall|j: int| 0 <= j < earlier.len() ==> earlier[j] == xs[j]);
        last
    }
}

/// The hit does not depend on the order of the intersections, as far as
/// `intersections` changes it: sorted or not, they have the same hit or none.
pub proof fn lemma_hit_ignores_order(xs: Seq<Intersection>, sorted: Seq<Intersection>)
    requires
        ascending(sorted),
        forall|t: i64| with_key(sorted, t) == with_key(xs, t),
    ensures
        hit_of(sorted) == hit_of(xs),
{
    if exists|i: int| is_hit(xs, i) {
        let i = choose|i: int| is_hit(xs, i);
        lemma_sorting_keeps_hit(xs, sorted, i);
        let j = choose|j: int| is_hit(sorted, j) && sorted[j] == xs[i];
        lemma_hit_is_unique(sorted, j, choose|j: int| is_hit(sorted, j));
    } else {
        assert forall|m: int| 0 <= m < xs.len() implies xs[m].t < 0 by {
            if xs[m].t >= 0 {
                lemma_hit_exists(xs, m);
            }
        }
        lemma_sorting_keeps_miss(xs, sorted);
    }
}

/// Where every intersection lies behind the ray's origin, sorting changes
/// nothing of that.
pub proof fn lemma_sorting_keeps_miss(xs: Seq<Intersection>, sorted: Seq<Intersection>)
    requires
        forall|t: i64| with_key(sorted, t) == with_key(xs, t),
        all_behind(xs),
    ensures
        all_behind(sorted),
{
    assert forall|m: int| 0 <= m < sorted.len() implies sorted[m].t < 0 by {
        let first = lemma_first_index(sorted, m);
        lemma_with_key_first(sorted, first);
        assert(with_key(sorted, sorted[m].t) == with_key(xs, sorted[m].t));
        lemma_with_key_found(xs, sorted[m].t);
    }
}

/// Sorting has one result only: two sequences in ascending order that hold,
/// for every key, the same intersections in the same order are equal.
pub proof fn lemma_sorted_is_unique(a: Seq<Intersection>, b: Seq<Intersection>)
    requires
        ascending(a),
        ascending(b),
        forall|t: i64| with_key(a, t) == with_key(b, t),
    ensures
        a == b,
    decreases a.len(),
{
    if a.len() == 0 {
        if b.len() > 0 {
            lemma_key_in_both(b, a, 0);
        }
        assert(a =~= b);
    } else {
        lemma_key_in_both(a, b, a.len() - 1);
        lemma_key_in_both(b, a, b.len() - 1);
        let k = a.last().t;
        assert(b.last().t == k);
        let shorter_a = a.drop_last();
        let shorter_b = b.drop_last();
        assert(a =~= shorter_a.push(a.last()));
        assert(b =~= shorter_b.push(b.last()));
        assert forall|t: i64| with_key(shorter_a, t) == with_key(shorter_b, t) by {
            lemma_with_key_push(shorter_a, a.last(), t);
            lemma_with_key_push(shorter_b, b.last(), t);
            assert(with_key(a, t) == with_key(b, t));
            if t == k {
                let kept_a = with_key(shorter_a, t);
                let kept_b = with_key(shorter_b, t);
                assert(kept_a.push(a.last()).drop_last() =~= kept_a);
                assert(kept_b.push(b.last()).drop_last() =~= kept_b);
            }
        }
        assert(a.last() == b.last()) by {
            lemma_with_key_push(shorter_a, a.last(), k);
            lemma_with_key_push(shorter_b, b.last(), k);
            assert(with_key(a, k) == with_key(b, k));
            assert(with_key(shorter_a, k).push(a.last()).last() == a.last());
            assert(with_key(shorter_b, k).push(b.last()).last() == b.last());
        }
        lemma_sorted_is_unique(shorter_a, shorter_b);
        assert(a =~= b);
    }
}

/// `with_key` picks nothing for a key that no intersection has.
proof fn lemma_with_key_absent(xs: Seq<Intersection>, t: i64)
    requires
        forall|j: int| 0 <= j < xs.len() ==> xs[j].t != t,
    ensures
        with_key(xs, t) =~= Seq::<Intersection>::empty(),
{
    let pred = |x: Intersection| x.t == t;
    let kept = xs.filter(pred);
    if kept.len() > 0 {
        xs.lemma_filter_pred(pred, 0);
        xs.lemma_filter_contains_rev(pred, kept[0]);
        assert(kept.contains(kept[0]));
    }
}

/// What `with_key` picks once an intersection is added at the end.
proof fn lemma_with_key_push(xs: Seq<Intersection>, x: Intersection, t: i64)
    ensures
        with_key(xs.push(x), t) == if x.t == t {
            with_key(xs, t).push(x)
        } else {
            with_key(xs, t)
        },
{
    xs.lemma_filter_push(x, |y: Intersection| y.t == t);
}

/// An intersection that is put in before those with greater keys only is
/// picked by `with_key` as if it had been added at the end.
proof fn lemma_with_key_insert(xs: Seq<Intersection>, at: int, x: Intersection, t: i64)
    requires
        0 <= at <= xs.len(),
        forall|j: int| at <= j < xs.len() ==> xs[j].t > x.t,
    ensures
        with_key(xs.insert(at, x), t) == with_key(xs.push(x), t),
{
    let pred = |y: Intersection| y.t == t;
    let head = xs.subrange(0, at);
    let tail = xs.subrange(at, xs.len() as int);
    assert(xs =~= head + tail);
    assert(xs.insert(at, x) =~= head.push(x) + tail);
    Seq::filter_distributes_over_add(head, tail, pred);
    Seq::filter_distributes_over_add(head.push(x), tail, pred);
    head.lemma_filter_push(x, pred);
    xs.lemma_filter_push(x, pred);
    if x.t == t {
        assert forall|j: int| 0 <= j < tail.len() implies tail[j].t != t by {
            assert(tail[j] == xs[at + j]);
        }
        lemma_with_key_absent(tail, t);
        assert(head.filter(pred).push(x) + tail.filter(pred) =~= (head.filter(pred) + tail.filter(
            pred,
        )).push(x));
    }
}

/// The first intersection of `xs` with a key is the first of those that
/// `with_key` picks for that key.
proof fn lemma_with_key_first(xs: Seq<Intersection>, i: int)
    requires
        0 <= i < xs.len(),
        forall|m: int| 0 <= m < i ==> xs[m].t != xs[i].t,
    ensures
        with_key(xs, xs[i].t).len() > 0,
        with_key(xs, xs[i].t)[0] == xs[i],
{
    let t = xs[i].t;
    let pred = |y: Intersection| y.t == t;
    let head = xs.take(i);
    let rest = xs.skip(i + 1);
    assert(xs =~= head + (seq![xs[i]] + rest));
    Seq::filter_distributes_over_add(head, seq![xs[i]] + rest, pred);
    rest.lemma_filter_prepend(xs[i], pred);
    lemma_with_key_absent(head, t);
}

/// The index of the first intersection of `xs` that has the key of `xs[upto]`.
proof fn lemma_first_index(xs: Seq<Intersection>, upto: int) -> (first: int)
    requires
        0 <= upto < xs.len(),
    ensures
        0 <= first <= upto,
        xs[first].t == xs[upto].t,
        forall|m: int| 0 <= m < first ==> xs[m].t != xs[upto].t,
    decreases upto,
{
    if exists|m: int| 0 <= m < upto && xs[m].t == xs[upto].t {
        let m = choose|m: int| 0 <= m < upto && xs[m].t == xs[upto].t;
        lemma_first_index(xs, m)
    } else {
        upto
    }
}

/// Where `with_key` picks anything for a key, it picks first the first
/// intersection of `xs` with that key.
proof fn lemma_with_key_found(xs: Seq<Intersection>, t: i64) -> (first: int)
    requires
        with_key(xs, t).len() > 0,
    ensures
        0 <= first < xs.len(),
        xs[first].t == t,
        forall|m: int| 0 <= m < first ==> xs[m].t != t,
        with_key(xs, t)[0] == xs[first],
{
    let pred = |y: Intersection| y.t == t;
    let kept = xs.filter(pred);
    xs.lemma_filter_pred(pred, 0);
    assert(kept.contains(kept[0]));
    xs.lemma_filter_contains_rev(pred, kept[0]);
    let n = choose|n: int| 0 <= n < xs.len() && xs[n] == kept[0];
    let first = lemma_first_index(xs, n);
    lemma_with_key_first(xs, first);
    first
}

/// A key that occurs in one of two sequences with the same intersections for
/// every key occurs in the other.
proof fn lemma_key_in_both(a: Seq<Intersection>, b: Seq<Intersection>, i: int) -> (j: int)
    requires
        forall|t: i64| with_key(a, t) == with_key(b, t),
        0 <= i < a.len(),
    ensures
        0 <= j < b.len(),
        b[j].t == a[i].t,
{
    let first = lemma_first_index(a, i);
    lemma_with_key_first(a, first);
    assert(with_key(a, a[i].t) == with_key(b, a[i].t));
    lemma_with_key_found(b, a[i].t)
}

} // verus!
