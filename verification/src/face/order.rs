//! The strongest face does not depend on the order in which hits are found.

use crate::face::group::connected;
use crate::face::group::group;
use crate::face::group::groups;
use crate::face::group::is_chain;
use crate::face::group::is_largest;
use crate::face::group::is_strongest;
use crate::face::group::labels_at;
use crate::face::group::law_groups_are_chains;
use crate::face::group::lemma_totals_bounds;
use crate::face::group::similar;
use crate::face::group::totals;
use crate::face::group::Face;
use crate::face::group::Hit;
use crate::face::group::Totals;
use crate::face::group::MIN_NEIGHBOURS;
use vstd::multiset::*;
use vstd::prelude::*;
use vstd::seq_lib::*;

verus! {

/// No other group is as large as a largest one.
pub open spec fn has_single_largest(hits: Seq<Hit>) -> bool {
    forall|g: int, s: int|
        #![trigger is_largest(hits, g), group(hits, s)]
        is_largest(hits, g) && 0 <= s < hits.len() && s != g ==> group(hits, s).count < group(
            hits,
            g,
        ).count
}

/// `there` tells where each element of `b` stands in `a`, and `back` the reverse.
spec fn is_reordered<T>(a: Seq<T>, b: Seq<T>, there: Seq<int>, back: Seq<int>) -> bool {
    &&& a.len() == b.len() == there.len() == back.len()
    &&& forall|k: int|
        0 <= k < b.len() ==> {
            &&& 0 <= #[trigger] there[k] < a.len()
            &&& back[there[k]] == k
            &&& b[k] == a[there[k]]
        }
    &&& forall|k: int| 0 <= k < a.len() ==> 0 <= #[trigger] back[k] < b.len() && there[back[k]] == k
}

/// Two lists of the same elements are each other's reordering.
proof fn lemma_same_elements<T>(a: Seq<T>, b: Seq<T>) -> (ways: (Seq<int>, Seq<int>))
    requires
        a.to_multiset() == b.to_multiset(),
    ensures
        is_reordered(a, b, ways.0, ways.1),
    decreases b.len(),
{
    broadcast use group_multiset_axioms;

    to_multiset_len(a);
    to_multiset_len(b);
    let n = b.len() as int;
    if n == 0 {
        (Seq::empty(), Seq::empty())
    } else {
        let x = b[n - 1];
        to_multiset_contains(b, x);
        to_multiset_contains(a, x);
        assert(b.contains(x));
        let j = choose|j: int| 0 <= j < a.len() && a[j] == x;
        to_multiset_remove(a, j);
        to_multiset_remove(b, n - 1);
        let (there, back) = lemma_same_elements(a.remove(j), b.remove(n - 1));
        let wide_there = Seq::new(
            n as nat,
            |k: int|
                if k == n - 1 {
                    j
                } else if there[k] < j {
                    there[k]
                } else {
                    there[k] + 1
                },
        );
        let wide_back = Seq::new(
            n as nat,
            |k: int|
                if k == j {
                    n - 1
                } else if k < j {
                    back[k]
                } else {
                    back[k - 1]
                },
        );
        assert forall|k: int| 0 <= k < n implies {
            &&& 0 <= #[trigger] wide_there[k] < n
            &&& wide_back[wide_there[k]] == k
            &&& b[k] == a[wide_there[k]]
        } by {
            if k < n - 1 {
                assert(0 <= there[k] < n - 1);
                assert(b.remove(n - 1)[k] == b[k]);
            }
        }
        assert forall|k: int| 0 <= k < n implies 0 <= #[trigger] wide_back[k] < n
            && wide_there[wide_back[k]] == k by {
            if k < j {
                assert(0 <= back[k] < n - 1);
            } else if k > j {
                assert(0 <= back[k - 1] < n - 1);
            }
        }
        (wide_there, wide_back)
    }
}

/// Totals with one more hit, if it is one of the group.
spec fn plus(t: Totals, hit: Hit, belongs: bool) -> Totals {
    if belongs {
        Totals {
            count: t.count + 1,
            x: t.x + hit.x as nat,
            y: t.y + hit.y as nat,
            width: t.width + hit.width as nat,
            height: t.height + hit.height as nat,
        }
    } else {
        t
    }
}

/// Totals over the first hits only depend on those.
proof fn lemma_totals_of_front(
    hits: Seq<Hit>,
    labels: Seq<int>,
    others: Seq<Hit>,
    names: Seq<int>,
    g: int,
    n: nat,
)
    requires
        forall|k: int| 0 <= k < n ==> #[trigger] hits[k] == others[k],
        forall|k: int| 0 <= k < n ==> #[trigger] labels[k] == names[k],
    ensures
        totals(hits, labels, g, n) == totals(others, names, g, n),
    decreases n,
{
    if n > 0 {
        lemma_totals_of_front(hits, labels, others, names, g, (n - 1) as nat);
        assert(hits[n - 1] == others[n - 1] && labels[n - 1] == names[n - 1]);
    }
}

/// It makes no difference where a hit stands that is added to the totals.
proof fn lemma_totals_without(hits: Seq<Hit>, labels: Seq<int>, g: int, n: nat, j: int)
    requires
        hits.len() == labels.len(),
        0 <= j < n <= hits.len(),
    ensures
        totals(hits, labels, g, n) == plus(
            totals(hits.remove(j), labels.remove(j), g, (n - 1) as nat),
            hits[j],
            labels[j] == g,
        ),
    decreases n,
{
    if j == n - 1 {
        lemma_totals_of_front(
            hits,
            labels,
            hits.remove(j),
            labels.remove(j),
            g,
            (n - 1) as nat,
        );
    } else {
        lemma_totals_without(hits, labels, g, (n - 1) as nat, j);
        assert(hits.remove(j)[n - 2] == hits[n - 1]);
        assert(labels.remove(j)[n - 2] == labels[n - 1]);
    }
}

/// Reordered hits have the same totals, if the same ones belong to the group.
proof fn lemma_totals_reordered(
    a: Seq<Hit>,
    labels: Seq<int>,
    g: int,
    b: Seq<Hit>,
    names: Seq<int>,
    h: int,
    there: Seq<int>,
    back: Seq<int>,
)
    requires
        is_reordered(a, b, there, back),
        labels.len() == a.len(),
        names.len() == b.len(),
        forall|k: int|
            0 <= k < b.len() ==> (#[trigger] names[k] == h <==> labels[there[k]] == g),
    ensures
        totals(a, labels, g, a.len()) == totals(b, names, h, b.len()),
    decreases b.len(),
{
    let n = b.len() as int;
    if n > 0 {
        let j = there[n - 1];
        let fewer_there = Seq::new(
            (n - 1) as nat,
            |k: int|
                if there[k] < j {
                    there[k]
                } else {
                    there[k] - 1
                },
        );
        let fewer_back = Seq::new(
            (n - 1) as nat,
            |k: int|
                if k < j {
                    back[k]
                } else {
                    back[k + 1]
                },
        );
        let (a1, b1) = (a.remove(j), b.remove(n - 1));
        assert forall|k: int| 0 <= k < n - 1 implies {
            &&& 0 <= #[trigger] fewer_there[k] < n - 1
            &&& fewer_back[fewer_there[k]] == k
            &&& b1[k] == a1[fewer_there[k]]
        } by {
            assert(back[there[k]] == k);
            assert(back[there[n - 1]] == n - 1);
        }
        assert forall|k: int| 0 <= k < n - 1 implies 0 <= #[trigger] fewer_back[k] < n - 1
            && fewer_there[fewer_back[k]] == k by {
            let m = if k < j {
                k
            } else {
                k + 1
            };
            assert(there[back[m]] == m);
        }
        assert forall|k: int| 0 <= k < n - 1 implies (#[trigger] names.remove(n - 1)[k] == h
            <==> labels.remove(j)[fewer_there[k]] == g) by {
            assert(back[there[k]] == k);
            assert(back[there[n - 1]] == n - 1);
            assert(names[k] == h <==> labels[there[k]] == g);
        }
        lemma_totals_reordered(
            a1,
            labels.remove(j),
            g,
            b1,
            names.remove(n - 1),
            h,
            fewer_there,
            fewer_back,
        );
        lemma_totals_without(a, labels, g, n as nat, j);
        lemma_totals_without(b, names, h, n as nat, n - 1);
        assert(names[n - 1] == h <==> labels[there[n - 1]] == g);
    }
}

/// Chains stay chains when the hits are reordered.
proof fn lemma_connected_reordered(
    a: Seq<Hit>,
    b: Seq<Hit>,
    there: Seq<int>,
    back: Seq<int>,
    i: int,
    j: int,
)
    requires
        is_reordered(a, b, there, back),
        connected(b, i, j),
    ensures
        connected(a, there[i], there[j]),
{
    let chain = choose|chain: Seq<int>| is_chain(b, chain, i, j);
    let moved = Seq::new(chain.len(), |k: int| there[chain[k]]);
    assert forall|k: int| 0 <= k < moved.len() implies 0 <= #[trigger] moved[k] < a.len() by {
        assert(0 <= chain[k] < b.len());
    }
    assert forall|k: int, m: int|
        0 <= k && m == k + 1 && m < moved.len() implies similar(
        a[#[trigger] moved[k]],
        a[#[trigger] moved[m]],
    ) by {
        assert(0 <= chain[k] < b.len() && 0 <= chain[m] < b.len());
        assert(b[chain[k]] == a[there[chain[k]]] && b[chain[m]] == a[there[chain[m]]]);
    }
    assert(is_chain(a, moved, there[i], there[j]));
}

/// Labels are numbers of hits.
proof fn lemma_labels_in_range(hits: Seq<Hit>, i: nat, j: nat)
    requires
        i <= hits.len(),
        j <= i,
        j > 0 ==> i < hits.len(),
    ensures
        labels_at(hits, i, j).len() == hits.len(),
        forall|k: int|
            0 <= k < hits.len() ==> 0 <= #[trigger] labels_at(hits, i, j)[k] < hits.len(),
    decreases i, j,
{
    if j > 0 {
        lemma_labels_in_range(hits, i, (j - 1) as nat);
        let before = labels_at(hits, i, (j - 1) as nat);
        assert(0 <= before[j - 1] < hits.len());
        assert forall|k: int| 0 <= k < hits.len() implies 0 <= #[trigger] labels_at(hits, i, j)[k]
            < hits.len() by {
            assert(0 <= before[k] < hits.len());
        }
    } else if i > 0 {
        lemma_labels_in_range(hits, (i - 1) as nat, (i - 1) as nat);
    }
}

/// A group that is not empty has a member.
proof fn lemma_member(hits: Seq<Hit>, labels: Seq<int>, g: int, n: nat) -> (i: int)
    requires
        totals(hits, labels, g, n).count > 0,
    ensures
        0 <= i < n,
        labels[i] == g,
    decreases n,
{
    if labels[n - 1] == g {
        n - 1
    } else {
        lemma_member(hits, labels, g, (n - 1) as nat)
    }
}

/// A group of hits has its counterpart among the reordered hits.
proof fn lemma_counterpart(
    a: Seq<Hit>,
    b: Seq<Hit>,
    there: Seq<int>,
    back: Seq<int>,
    g: int,
) -> (h: int)
    requires
        is_reordered(a, b, there, back),
        group(a, g).count > 0,
    ensures
        0 <= h < b.len(),
        group(b, h) == group(a, g),
{
    let i = lemma_member(a, groups(a), g, a.len());
    let at = back[i];
    assert(there[at] == i);
    lemma_labels_in_range(a, a.len(), 0);
    lemma_labels_in_range(b, b.len(), 0);
    let h = groups(b)[at];
    assert(is_reordered(b, a, back, there));
    assert forall|k: int| 0 <= k < b.len() implies (#[trigger] groups(b)[k] == h <==> groups(
        a,
    )[there[k]] == g) by {
        assert(0 <= there[k] < a.len() && back[there[k]] == k);
        law_groups_are_chains(b, k, at);
        law_groups_are_chains(a, there[k], i);
        if connected(b, k, at) {
            lemma_connected_reordered(a, b, there, back, k, at);
        }
        if connected(a, there[k], i) {
            lemma_connected_reordered(b, a, back, there, there[k], i);
        }
    }
    lemma_totals_reordered(a, groups(a), g, b, groups(b), h, there, back);
    h
}

/// Hits decide which face is the strongest: there is one answer.
pub proof fn law_strongest_is_unique(hits: Seq<Hit>, face: Option<Face>, other: Option<Face>)
    requires
        is_strongest(hits, face),
        is_strongest(hits, other),
    ensures
        face == other,
{
    if let Some(f) = face {
        let g = choose|g: int| #[trigger] is_largest(hits, g) && f@ == group(hits, g);
        assert(group(hits, g).count > MIN_NEIGHBOURS);
        if let Some(o) = other {
            let s = choose|s: int| #[trigger] is_largest(hits, s) && o@ == group(hits, s);
            assert(group(hits, s).count <= group(hits, g).count);
            assert(group(hits, g).count <= group(hits, s).count);
            assert(g == s);
        }
    } else if let Some(o) = other {
        let s = choose|s: int| #[trigger] is_largest(hits, s) && o@ == group(hits, s);
        assert(group(hits, s).count > MIN_NEIGHBOURS);
    }
}

/// The order of the hits makes no difference, as long as the largest group is larger than every
/// other. Of two largest groups the order decides.
pub proof fn law_order_makes_no_difference(
    hits: Seq<Hit>,
    reordered: Seq<Hit>,
    face: Option<Face>,
    other: Option<Face>,
)
    requires
        hits.to_multiset() == reordered.to_multiset(),
        has_single_largest(hits),
        is_strongest(hits, face),
        is_strongest(reordered, other),
    ensures
        face == other,
{
    let (there, back) = lemma_same_elements(hits, reordered);
    assert(is_reordered(reordered, hits, back, there));
    if let Some(f) = face {
        let g = choose|g: int| #[trigger] is_largest(hits, g) && f@ == group(hits, g);
        let h = lemma_counterpart(hits, reordered, there, back, g);
        assert(group(reordered, h).count > MIN_NEIGHBOURS);
        let o = other->0;
        let s = choose|s: int| #[trigger] is_largest(reordered, s) && o@ == group(reordered, s);
        assert(group(reordered, h).count <= group(reordered, s).count);
        let m = lemma_counterpart(reordered, hits, back, there, s);
        assert(m == g);
    } else if let Some(o) = other {
        let s = choose|s: int| #[trigger] is_largest(reordered, s) && o@ == group(reordered, s);
        let m = lemma_counterpart(reordered, hits, back, there, s);
        assert(group(hits, m).count > MIN_NEIGHBOURS);
    }
}

/// No more than [`MIN_NEIGHBOURS`] hits are no face.
pub proof fn law_few_hits_are_no_face(hits: Seq<Hit>, face: Option<Face>)
    requires
        hits.len() <= MIN_NEIGHBOURS,
        is_strongest(hits, face),
    ensures
        face is None,
{
    if let Some(f) = face {
        let g = choose|g: int| #[trigger] is_largest(hits, g) && f@ == group(hits, g);
        lemma_totals_bounds(hits, groups(hits), g, hits.len());
    }
}

} // verus!
