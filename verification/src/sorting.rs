//! What it is to sort centroids by mean, keeping the order of those whose
//! means are equal, and why that leaves one result only.

use crate::centroid::{
    lemma_mean_order_total, mean_order, precedes, sorted_by_mean, Centroid,
};
use crate::scalar::F32;
use vstd::prelude::*;

verus! {

/// Whether a centroid's mean equals `m` under `mean_order`.
pub open spec fn has_mean(c: Centroid, m: F32) -> bool {
    mean_order(c.mean, m) is Equal
}

/// The centroids of `s` whose mean equals `m`, in the order in which they
/// stand in `s`.
pub open spec fn with_mean(s: Seq<Centroid>, m: F32) -> Seq<Centroid>
    decreases s.len(),
{
    if s.len() == 0 {
        s
    } else if has_mean(s.last(), m) {
        with_mean(s.drop_last(), m).push(s.last())
    } else {
        with_mean(s.drop_last(), m)
    }
}

/// `out` is `src` sorted by mean, stably: it holds the same centroids, its
/// means never step down, and centroids of equal mean stand in the order in
/// which they stood in `src`.
pub open spec fn is_stable_sort(src: Seq<Centroid>, out: Seq<Centroid>) -> bool {
    &&& out.to_multiset() == src.to_multiset()
    &&& sorted_by_mean(out)
    &&& forall|m: F32| #[trigger] with_mean(out, m) == with_mean(src, m)
}

/// `s` with `x` put in after every centroid that may stand before it.
pub open spec fn placed(s: Seq<Centroid>, x: Centroid) -> Seq<Centroid>
    decreases s.len(),
{
    if s.len() == 0 {
        seq![x]
    } else if precedes(s.last().mean, x.mean) {
        s.push(x)
    } else {
        placed(s.drop_last(), x).push(s.last())
    }
}

/// `s` sorted by mean, stably: each centroid in turn is put in after those
/// that may stand before it.
pub open spec fn stable_sort(s: Seq<Centroid>) -> Seq<Centroid>
    decreases s.len(),
{
    if s.len() == 0 {
        s
    } else {
        placed(stable_sort(s.drop_last()), s.last())
    }
}

/// A centroid that `with_mean` keeps stands in the sequence and has the mean
/// asked for.
proof fn lemma_with_mean_members(s: Seq<Centroid>, m: F32, i: int)
    requires
        0 <= i < with_mean(s, m).len(),
    ensures
        has_mean(with_mean(s, m)[i], m),
        s.contains(with_mean(s, m)[i]),
    decreases s.len(),
{
    if s.len() > 0 {
        let rest = with_mean(s.drop_last(), m);
        if i < rest.len() {
            lemma_with_mean_members(s.drop_last(), m, i);
            let j = choose|j: int| 0 <= j < s.drop_last().len() && s.drop_last()[j] == rest[i];
            assert(s[j] == rest[i]);
        } else {
            assert(s[s.len() - 1] == s.last());
        }
    }
}

/// Means that equal each other select the same centroids.
proof fn lemma_with_mean_of_equal(s: Seq<Centroid>, m: F32, n: F32)
    requires
        mean_order(m, n) is Equal,
    ensures
        with_mean(s, m) == with_mean(s, n),
    decreases s.len(),
{
    if s.len() > 0 {
        lemma_with_mean_of_equal(s.drop_last(), m, n);
        lemma_mean_order_total(s.last().mean, m, n);
        lemma_mean_order_total(s.last().mean, n, m);
        lemma_mean_order_total(m, n, m);
    }
}

/// Where two sorted sequences select the same centroids for every mean,
/// their last means are equal.
proof fn lemma_last_means_equal(a: Seq<Centroid>, b: Seq<Centroid>)
    requires
        a.len() > 0,
        b.len() > 0,
        sorted_by_mean(b),
        forall|m: F32| #[trigger] with_mean(a, m) == with_mean(b, m),
    ensures
        precedes(a.last().mean, b.last().mean),
{
    let x = a.last();
    let m = x.mean;
    lemma_mean_order_total(m, m, m);
    assert(with_mean(a, m) == with_mean(a.drop_last(), m).push(x));
    let found = with_mean(b, m);
    assert(found.len() > 0);
    lemma_with_mean_members(b, m, 0);
    let j = choose|j: int| 0 <= j < b.len() && b[j] == found[0];
    // b[j] has the mean of x, and stands at or before the last of b.
    lemma_mean_order_total(b[j].mean, m, b.last().mean);
    lemma_mean_order_total(m, b[j].mean, b.last().mean);
    if j < b.len() - 1 {
        assert(precedes(b[j].mean, b[b.len() - 1].mean));
    }
}

/// A sorted sequence is known by its length and by the centroids that it
/// holds of each mean, in their order.
pub proof fn lemma_sorted_is_unique(a: Seq<Centroid>, b: Seq<Centroid>)
    requires
        sorted_by_mean(a),
        sorted_by_mean(b),
        a.len() == b.len(),
        forall|m: F32| #[trigger] with_mean(a, m) == with_mean(b, m),
    ensures
        a == b,
    decreases a.len(),
{
    if a.len() == 0 {
        assert(a =~= b);
    } else {
        let x = a.last();
        let y = b.last();
        lemma_last_means_equal(a, b);
        assert forall|m: F32| #[trigger] with_mean(b, m) == with_mean(a, m) by {
            assert(with_mean(a, m) == with_mean(b, m));
        }
        lemma_last_means_equal(b, a);
        lemma_mean_order_total(x.mean, y.mean, x.mean);
        lemma_mean_order_total(x.mean, x.mean, x.mean);
        assert(mean_order(y.mean, x.mean) is Equal);
        // Both ends are the last centroid of that mean.
        assert(with_mean(a, x.mean) == with_mean(a.drop_last(), x.mean).push(x));
        assert(with_mean(b, x.mean) == with_mean(b.drop_last(), x.mean).push(y));
        assert(with_mean(a, x.mean) == with_mean(b, x.mean));
        assert(with_mean(a, x.mean).last() == x);
        assert(x == y);
        assert forall|m: F32| #[trigger]
            with_mean(a.drop_last(), m) == with_mean(b.drop_last(), m) by {
            assert(with_mean(a, m) == with_mean(b, m));
            if has_mean(x, m) {
                assert(with_mean(a, m).drop_last() =~= with_mean(a.drop_last(), m));
                assert(with_mean(b, m).drop_last() =~= with_mean(b.drop_last(), m));
            }
        }
        assert(sorted_by_mean(a.drop_last())) by {
            assert forall|i: int, j: int| 0 <= i < j < a.drop_last().len() implies precedes(
                (#[trigger] a.drop_last()[i]).mean,
                (#[trigger] a.drop_last()[j]).mean,
            ) by {
                assert(precedes(a[i].mean, a[j].mean));
            }
        }
        assert(sorted_by_mean(b.drop_last())) by {
            assert forall|i: int, j: int| 0 <= i < j < b.drop_last().len() implies precedes(
                (#[trigger] b.drop_last()[i]).mean,
                (#[trigger] b.drop_last()[j]).mean,
            ) by {
                assert(precedes(b[i].mean, b[j].mean));
            }
        }
        lemma_sorted_is_unique(a.drop_last(), b.drop_last());
        assert(a =~= a.drop_last().push(x));
        assert(b =~= b.drop_last().push(y));
    }
}

/// A sequence has one stable sort only.
pub proof fn lemma_stable_sort_is_unique(src: Seq<Centroid>, a: Seq<Centroid>, b: Seq<Centroid>)
    requires
        is_stable_sort(src, a),
        is_stable_sort(src, b),
    ensures
        a == b,
{
    a.to_multiset_ensures();
    b.to_multiset_ensures();
    assert forall|m: F32| #[trigger] with_mean(a, m) == with_mean(b, m) by {
        assert(with_mean(a, m) == with_mean(src, m));
        assert(with_mean(b, m) == with_mean(src, m));
    }
    lemma_sorted_is_unique(a, b);
}

/// Putting a centroid into a sorted sequence leaves it sorted, adds the
/// centroid and nothing else, and puts it after the centroids of its own
/// mean.
proof fn lemma_placed(s: Seq<Centroid>, x: Centroid)
    requires
        sorted_by_mean(s),
    ensures
        sorted_by_mean(placed(s, x)),
        placed(s, x).len() == s.len() + 1,
        placed(s, x).to_multiset() == s.to_multiset().insert(x),
        forall|i: int|
            0 <= i < placed(s, x).len() ==> (#[trigger] placed(s, x)[i]) == x || s.contains(
                placed(s, x)[i],
            ),
        forall|m: F32| #[trigger]
            with_mean(placed(s, x), m) == if has_mean(x, m) {
                with_mean(s, m).push(x)
            } else {
                with_mean(s, m)
            },
    decreases s.len(),
{
    let out = placed(s, x);
    s.to_multiset_ensures();
    if s.len() == 0 {
        assert(seq![x] =~= s.push(x));
        assert forall|m: F32| #[trigger]
            with_mean(out, m) == if has_mean(x, m) {
                with_mean(s, m).push(x)
            } else {
                with_mean(s, m)
            } by {
            assert(out.drop_last() =~= s);
        }
    } else if precedes(s.last().mean, x.mean) {
        assert forall|i: int, j: int| 0 <= i < j < out.len() implies precedes(
            (#[trigger] out[i]).mean,
            (#[trigger] out[j]).mean,
        ) by {
            if j < s.len() {
                assert(precedes(s[i].mean, s[j].mean));
            } else {
                if i < s.len() - 1 {
                    assert(precedes(s[i].mean, s[s.len() - 1].mean));
                }
                lemma_mean_order_total(s[i].mean, s.last().mean, x.mean);
            }
        }
        assert forall|i: int| 0 <= i < out.len() implies (#[trigger] out[i]) == x || s.contains(
            out[i],
        ) by {
            if i < s.len() {
                assert(s[i] == out[i]);
            }
        }
        assert forall|m: F32| #[trigger]
            with_mean(out, m) == if has_mean(x, m) {
                with_mean(s, m).push(x)
            } else {
                with_mean(s, m)
            } by {
            assert(out.drop_last() =~= s);
        }
    } else {
        let rest = s.drop_last();
        let l = s.last();
        let inner = placed(rest, x);
        assert(sorted_by_mean(rest)) by {
            assert forall|i: int, j: int| 0 <= i < j < rest.len() implies precedes(
                (#[trigger] rest[i]).mean,
                (#[trigger] rest[j]).mean,
            ) by {
                assert(precedes(s[i].mean, s[j].mean));
            }
        }
        lemma_placed(rest, x);
        rest.to_multiset_ensures();
        inner.to_multiset_ensures();
        assert(s =~= rest.push(l));
        // The last of `s` is strictly above `x`.
        lemma_mean_order_total(l.mean, x.mean, l.mean);
        assert(mean_order(x.mean, l.mean) is Less);
        assert forall|i: int, j: int| 0 <= i < j < out.len() implies precedes(
            (#[trigger] out[i]).mean,
            (#[trigger] out[j]).mean,
        ) by {
            if j < inner.len() {
                assert(precedes(inner[i].mean, inner[j].mean));
            } else {
                if inner[i] == x {
                } else {
                    assert(rest.contains(inner[i]));
                    let k = choose|k: int| 0 <= k < rest.len() && rest[k] == inner[i];
                    assert(precedes(s[k].mean, s[s.len() - 1].mean));
                }
            }
        }
        assert forall|i: int| 0 <= i < out.len() implies (#[trigger] out[i]) == x || s.contains(
            out[i],
        ) by {
            if i < inner.len() {
                if inner[i] != x {
                    assert(rest.contains(inner[i]));
                    let k = choose|k: int| 0 <= k < rest.len() && rest[k] == inner[i];
                    assert(s[k] == inner[i]);
                }
            } else {
                assert(s[s.len() - 1] == out[i]);
            }
        }
        assert(out.to_multiset() =~= s.to_multiset().insert(x));
        assert forall|m: F32| #[trigger]
            with_mean(out, m) == if has_mean(x, m) {
                with_mean(s, m).push(x)
            } else {
                with_mean(s, m)
            } by {
            assert(out.drop_last() =~= inner);
            assert(with_mean(inner, m) == if has_mean(x, m) {
                with_mean(rest, m).push(x)
            } else {
                with_mean(rest, m)
            });
            if has_mean(x, m) && has_mean(l, m) {
                lemma_mean_order_total(x.mean, m, l.mean);
                lemma_mean_order_total(l.mean, m, l.mean);
                lemma_mean_order_total(m, l.mean, m);
                assert(false);
            }
        }
    }
}

/// `stable_sort` is a stable sort.
pub proof fn lemma_stable_sort(s: Seq<Centroid>)
    ensures
        is_stable_sort(s, stable_sort(s)),
        stable_sort(s).len() == s.len(),
    decreases s.len(),
{
    if s.len() > 0 {
        let rest = s.drop_last();
        lemma_stable_sort(rest);
        lemma_placed(stable_sort(rest), s.last());
        rest.to_multiset_ensures();
        assert(s =~= rest.push(s.last()));
        assert forall|m: F32| #[trigger] with_mean(stable_sort(s), m) == with_mean(s, m) by {
            assert(with_mean(stable_sort(rest), m) == with_mean(rest, m));
        }
    }
}

/// The first mean of a sorted sequence is the least, and its last mean the
/// greatest, of the means of any sequence that holds the same centroids.
pub proof fn lemma_sorted_ends(src: Seq<Centroid>, sorted: Seq<Centroid>, i: int)
    requires
        sorted.to_multiset() == src.to_multiset(),
        sorted_by_mean(sorted),
        0 <= i < src.len(),
    ensures
        sorted.len() == src.len(),
        precedes(sorted[0].mean, src[i].mean),
        precedes(src[i].mean, sorted.last().mean),
        src.contains(sorted[0]),
        src.contains(sorted.last()),
{
    src.to_multiset_ensures();
    sorted.to_multiset_ensures();
    assert(src.contains(src[i]));
    assert(src.to_multiset().count(src[i]) > 0);
    assert(sorted.to_multiset().count(src[i]) > 0);
    assert(sorted.contains(src[i]));
    let j = choose|j: int| 0 <= j < sorted.len() && sorted[j] == src[i];
    lemma_mean_order_total(src[i].mean, src[i].mean, src[i].mean);
    if 0 < j {
        assert(precedes(sorted[0].mean, sorted[j].mean));
    }
    if j < sorted.len() - 1 {
        assert(precedes(sorted[j].mean, sorted[sorted.len() - 1].mean));
    }
    let first = sorted[0];
    let last = sorted[sorted.len() - 1];
    assert(sorted.contains(first));
    assert(sorted.to_multiset().count(first) > 0);
    assert(src.to_multiset().count(first) > 0);
    assert(sorted.contains(last));
    assert(sorted.to_multiset().count(last) > 0);
    assert(src.to_multiset().count(last) > 0);
}

} // verus!
