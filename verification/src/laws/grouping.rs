//! Which hits count as the same face, and which face is the strongest.

use crate::face::group::connected;
use crate::face::group::group;
use crate::face::group::groups;
use crate::face::group::is_largest;
use crate::face::group::is_strongest;
use crate::face::group::labels_at;
use crate::face::group::law_groups_are_chains;
use crate::face::group::merged;
use crate::face::group::similar;
use crate::face::group::totals;
use crate::face::group::Face;
use crate::face::group::Hit;
use vstd::prelude::*;

verus! {

/// The lesser of two lengths.
pub open spec fn least(a: usize, b: usize) -> int {
    if a <= b {
        a as int
    } else {
        b as int
    }
}

/// Hits count as the same face exactly when their left, right, top and bottom edges each differ by
/// no more than a tenth of the lesser width and the lesser height together.
pub proof fn law_same_faces_are_close(a: Hit, b: Hit)
    ensures
        ({
            let reach = least(a.width, b.width) + least(a.height, b.height);
            similar(a, b) <==> {
                &&& 10 * (a.x - b.x) <= reach
                &&& 10 * (b.x - a.x) <= reach
                &&& 10 * (a.y - b.y) <= reach
                &&& 10 * (b.y - a.y) <= reach
                &&& 10 * ((a.x + a.width) - (b.x + b.width)) <= reach
                &&& 10 * ((b.x + b.width) - (a.x + a.width)) <= reach
                &&& 10 * ((a.y + a.height) - (b.y + b.height)) <= reach
                &&& 10 * ((b.y + b.height) - (a.y + a.height)) <= reach
            }
        }),
{
}

/// Square hits that do not overlap, across or down, are never the same face.
pub proof fn law_apart_hits_are_different_faces(a: Hit, b: Hit)
    requires
        a.width == a.height,
        b.width == b.height,
        a.width > 0,
        b.width > 0,
        a.x + a.width <= b.x || b.x + b.width <= a.x || a.y + a.height <= b.y || b.y + b.height
            <= a.y,
    ensures
        !similar(a, b),
{
}

/// The hit with its axes exchanged.
pub open spec fn transposed(hit: Hit) -> Hit {
    Hit { x: hit.y, y: hit.x, width: hit.height, height: hit.width }
}

/// The hit moved to the right and down.
pub open spec fn is_moved(hit: Hit, moved: Hit, right: int, down: int) -> bool {
    &&& moved.x == hit.x + right
    &&& moved.y == hit.y + down
    &&& moved.width == hit.width
    &&& moved.height == hit.height
}

/// Neither the order of two hits, nor which axis is which, nor where on the image they are, makes a
/// difference to whether they are the same face. A hit is the same face as itself.
pub proof fn law_sameness_is_even_handed(
    a: Hit,
    b: Hit,
    right: int,
    down: int,
    a_moved: Hit,
    b_moved: Hit,
)
    requires
        is_moved(a, a_moved, right, down),
        is_moved(b, b_moved, right, down),
    ensures
        similar(a, a),
        similar(a, b) <==> similar(b, a),
        similar(a, b) <==> similar(transposed(a), transposed(b)),
        similar(a, b) <==> similar(a_moved, b_moved),
{
    law_same_faces_are_close(a, b);
    law_same_faces_are_close(b, a);
    law_same_faces_are_close(a, a);
    law_same_faces_are_close(transposed(a), transposed(b));
    law_same_faces_are_close(a_moved, b_moved);
}

/// The sum of a value over those of the first `n` hits that are picked.
pub open spec fn sum_over(
    hits: Seq<Hit>,
    picked: spec_fn(int) -> bool,
    value: spec_fn(Hit) -> int,
    n: nat,
) -> int
    decreases n,
{
    if n == 0 {
        0
    } else {
        sum_over(hits, picked, value, (n - 1) as nat) + (if picked(n - 1) {
            value(hits[n - 1])
        } else {
            0
        })
    }
}

/// The sum of a value over the hits that are the same face as hit `i`, directly or through others.
pub open spec fn sum_of_face(hits: Seq<Hit>, i: int, value: spec_fn(Hit) -> int) -> int {
    sum_over(hits, |j: int| connected(hits, i, j), value, hits.len())
}

/// How many hits are the same face as hit `i`.
pub open spec fn size_of_face(hits: Seq<Hit>, i: int) -> int {
    sum_of_face(hits, i, |hit: Hit| 1int)
}

/// All hits of the face of `i` come before all hits of the face of `j`.
pub open spec fn comes_first(hits: Seq<Hit>, i: int, j: int) -> bool {
    forall|a: int, b: int| #[trigger]
        connected(hits, i, a) && #[trigger] connected(hits, j, b) ==> a < b
}

/// The face counts and sums up exactly the hits that are the same face as hit `i`.
pub open spec fn is_face_of(hits: Seq<Hit>, i: int, face: Face) -> bool {
    &&& face.count == size_of_face(hits, i)
    &&& face.x == sum_of_face(hits, i, |hit: Hit| hit.x as int)
    &&& face.y == sum_of_face(hits, i, |hit: Hit| hit.y as int)
    &&& face.width == sum_of_face(hits, i, |hit: Hit| hit.width as int)
    &&& face.height == sum_of_face(hits, i, |hit: Hit| hit.height as int)
}

/// Totals of a label sum up the hits that bear it.
proof fn lemma_totals_sum(
    hits: Seq<Hit>,
    labels: Seq<int>,
    g: int,
    n: nat,
    picked: spec_fn(int) -> bool,
)
    requires
        n <= hits.len(),
        forall|j: int| 0 <= j < n ==> (#[trigger] picked(j) <==> labels[j] == g),
    ensures
        ({
            let t = totals(hits, labels, g, n);
            &&& t.count == sum_over(hits, picked, |hit: Hit| 1int, n)
            &&& t.x == sum_over(hits, picked, |hit: Hit| hit.x as int, n)
            &&& t.y == sum_over(hits, picked, |hit: Hit| hit.y as int, n)
            &&& t.width == sum_over(hits, picked, |hit: Hit| hit.width as int, n)
            &&& t.height == sum_over(hits, picked, |hit: Hit| hit.height as int, n)
        }),
    decreases n,
{
    if n > 0 {
        lemma_totals_sum(hits, labels, g, (n - 1) as nat, picked);
        assert(picked(n - 1) <==> labels[n - 1] == g);
    }
}

proof fn lemma_group_sum(hits: Seq<Hit>, i: int)
    requires
        0 <= i < hits.len(),
    ensures
        ({
            let t = group(hits, groups(hits)[i]);
            &&& t.count == size_of_face(hits, i)
            &&& t.x == sum_of_face(hits, i, |hit: Hit| hit.x as int)
            &&& t.y == sum_of_face(hits, i, |hit: Hit| hit.y as int)
            &&& t.width == sum_of_face(hits, i, |hit: Hit| hit.width as int)
            &&& t.height == sum_of_face(hits, i, |hit: Hit| hit.height as int)
        }),
{
    let picked = |j: int| connected(hits, i, j);
    assert forall|j: int| 0 <= j < hits.len() implies (#[trigger] picked(j) <==> groups(hits)[j]
        == groups(hits)[i]) by {
        law_groups_are_chains(hits, i, j);
    }
    lemma_totals_sum(hits, groups(hits), groups(hits)[i], hits.len(), picked);
}

/// A label is the number of a hit that bears it.
proof fn lemma_label_bears_itself(hits: Seq<Hit>, i: nat, j: nat)
    requires
        i <= hits.len(),
        j <= i,
        j > 0 ==> i < hits.len(),
    ensures
        labels_at(hits, i, j).len() == hits.len(),
        forall|k: int|
            0 <= k < hits.len() ==> {
                let label = #[trigger] labels_at(hits, i, j)[k];
                0 <= label < hits.len() && labels_at(hits, i, j)[label] == label
            },
    decreases i, j,
{
    if j > 0 {
        let before = labels_at(hits, i, (j - 1) as nat);
        let after = labels_at(hits, i, j);
        lemma_label_bears_itself(hits, i, (j - 1) as nat);
        assert(before[before[j - 1]] == before[j - 1]);
        assert(before[before[i as int]] == before[i as int]);
        assert forall|k: int| 0 <= k < hits.len() implies {
            let label = #[trigger] after[k];
            0 <= label < hits.len() && after[label] == label
        } by {
            assert(before[before[k]] == before[k]);
        }
    } else if i > 0 {
        lemma_label_bears_itself(hits, (i - 1) as nat, (i - 1) as nat);
    }
}

proof fn lemma_totals_member(hits: Seq<Hit>, labels: Seq<int>, g: int, n: nat) -> (i: int)
    requires
        totals(hits, labels, g, n).count > 0,
    ensures
        0 <= i < n,
        labels[i] == g,
    decreases n,
{
    if labels[n - 1] == g {
        n - 1
    } else {
        lemma_totals_member(hits, labels, g, (n - 1) as nat)
    }
}

/// The strongest face sums up all hits that are the same face as one of them, directly or through
/// others. It has more than three, and no face has more. Of those as large, it is the one with the
/// latest label, and so not one whose hits all come first.
pub proof fn law_strongest_has_the_most_hits(hits: Seq<Hit>, face: Face) -> (i: int)
    requires
        is_strongest(hits, Some(face)),
    ensures
        0 <= i < hits.len(),
        is_face_of(hits, i, face),
        face.count > 3,
        forall|j: int| 0 <= j < hits.len() ==> #[trigger] size_of_face(hits, j) <= face.count,
        forall|j: int|
            0 <= j < hits.len() && #[trigger] size_of_face(hits, j) == face.count ==> !comes_first(
                hits,
                i,
                j,
            ) && groups(hits)[j] <= groups(hits)[i],
{
    let g = choose|g: int| #[trigger] is_largest(hits, g) && face@ == group(hits, g);
    let labels = groups(hits);
    let i = lemma_totals_member(hits, labels, g, hits.len());
    lemma_group_sum(hits, i);
    lemma_label_bears_itself(hits, hits.len(), 0);
    assert(labels[i] == g);
    assert forall|j: int| 0 <= j < hits.len() implies {
        &&& #[trigger] size_of_face(hits, j) <= face.count
        &&& size_of_face(hits, j) == face.count ==> !comes_first(hits, i, j) && groups(hits)[j]
            <= groups(hits)[i]
    } by {
        lemma_group_sum(hits, j);
        let h = labels[j];
        assert(0 <= h < hits.len() && labels[h] == h);
        assert(0 <= g < hits.len() && labels[g] == g);
        assert(group(hits, h).count <= group(hits, g).count);
        law_groups_are_chains(hits, i, g);
        law_groups_are_chains(hits, j, h);
        assert(connected(hits, i, g) && connected(hits, j, h));
        if h > g {
            assert(group(hits, h).count < group(hits, g).count);
        }
    }
    i
}

/// There is no strongest face exactly when no face has more than three hits.
pub proof fn law_no_face_has_enough_hits(hits: Seq<Hit>, face: Option<Face>)
    requires
        is_strongest(hits, face),
    ensures
        face is None <==> forall|j: int|
            0 <= j < hits.len() ==> #[trigger] size_of_face(hits, j) <= 3,
{
    lemma_label_bears_itself(hits, hits.len(), 0);
    match face {
        None => {
            assert forall|j: int| 0 <= j < hits.len() implies #[trigger] size_of_face(hits, j)
                <= 3 by {
                lemma_group_sum(hits, j);
                assert(0 <= groups(hits)[j] < hits.len());
                assert(group(hits, groups(hits)[j]).count <= 3);
            }
        },
        Some(f) => {
            let i = law_strongest_has_the_most_hits(hits, f);
            assert(size_of_face(hits, i) > 3);
        },
    }
}

/// The face of hit `k` is met by hit `h`, among the hits before number `m`.
pub open spec fn is_met(hits: Seq<Hit>, h: Hit, k: int, m: int) -> bool {
    exists|j: int|
        0 <= j < m && similar(h, #[trigger] hits[j]) && groups(hits)[j] == groups(hits)[k]
}

/// Hit `j` is the last at which `h` meets a face that it has not met before.
pub open spec fn is_last_met(hits: Seq<Hit>, h: Hit, j: int, m: int) -> bool {
    &&& 0 <= j < m
    &&& similar(h, hits[j])
    &&& !is_met(hits, h, j, j)
    &&& forall|k: int| j < k < m && similar(h, #[trigger] hits[k]) ==> is_met(hits, h, k, k)
}

/// Another hit at the end makes no difference to the labels before its own pairs are looked at.
proof fn lemma_labels_of_front(hits: Seq<Hit>, h: Hit, i: nat, j: nat)
    requires
        i <= hits.len(),
        j <= i,
        j > 0 ==> i < hits.len(),
    ensures
        labels_at(hits.push(h), i, j) == labels_at(hits, i, j).push(hits.len() as int),
    decreases i, j,
{
    let more = hits.push(h);
    let n = hits.len() as int;
    lemma_label_bears_itself(hits, i, j);
    if j > 0 {
        lemma_labels_of_front(hits, h, i, (j - 1) as nat);
        lemma_label_bears_itself(hits, i, (j - 1) as nat);
        let before = labels_at(hits, i, (j - 1) as nat);
        assert(more[i as int] == hits[i as int] && more[j - 1] == hits[j - 1]);
        assert(0 <= before[i as int] < n);
        assert(labels_at(more, i, j) =~= labels_at(hits, i, j).push(n));
    } else if i > 0 {
        lemma_labels_of_front(hits, h, (i - 1) as nat, (i - 1) as nat);
    } else {
        assert(labels_at(more, 0, 0) =~= labels_at(hits, 0, 0).push(n));
    }
}

/// `labels` are those once the pairs of `h` with the first `m` hits have been looked at.
spec fn is_joined(hits: Seq<Hit>, h: Hit, m: int, labels: Seq<int>) -> bool {
    let n = hits.len() as int;
    &&& labels.len() == n + 1
    &&& forall|k: int|
        0 <= k < n && is_met(hits, h, k, m) ==> #[trigger] labels[k] == labels[n]
    &&& forall|k: int|
        0 <= k < n && !is_met(hits, h, k, m) ==> #[trigger] labels[k] == groups(hits)[k]
    &&& forall|j: int| #[trigger] is_last_met(hits, h, j, m) ==> labels[n] == groups(hits)[j]
    &&& (exists|j: int| #[trigger] is_last_met(hits, h, j, m)) || (labels[n] == n && forall|j: int|
        0 <= j < m ==> !similar(h, #[trigger] hits[j]))
}

/// One more hit that is met, or not, changes what is met.
proof fn lemma_met_next(hits: Seq<Hit>, h: Hit, k: int, p: int)
    requires
        0 <= p < hits.len(),
    ensures
        is_met(hits, h, k, p + 1) <==> is_met(hits, h, k, p) || (similar(h, hits[p]) && groups(
            hits,
        )[p] == groups(hits)[k]),
{
    if is_met(hits, h, k, p + 1) {
        let j = choose|j: int|
            0 <= j < p + 1 && similar(h, #[trigger] hits[j]) && groups(hits)[j] == groups(hits)[k];
        if j < p {
            assert(is_met(hits, h, k, p));
        }
    }
    if is_met(hits, h, k, p) {
        let j = choose|j: int|
            0 <= j < p && similar(h, #[trigger] hits[j]) && groups(hits)[j] == groups(hits)[k];
        assert(is_met(hits, h, k, p + 1));
    }
}

/// Hits with one label are met together.
proof fn lemma_met_alike(hits: Seq<Hit>, h: Hit, k: int, l: int, m: int)
    requires
        groups(hits)[k] == groups(hits)[l],
    ensures
        is_met(hits, h, k, m) == is_met(hits, h, l, m),
{
}

/// A hit that is not met, or whose face has been, changes nothing.
proof fn lemma_joined_already(hits: Seq<Hit>, h: Hit, p: int, labels: Seq<int>)
    requires
        0 <= p < hits.len(),
        is_joined(hits, h, p, labels),
        !similar(h, hits[p]) || is_met(hits, h, p, p),
    ensures
        is_joined(hits, h, p + 1, labels),
{
    let n = hits.len() as int;
    assert forall|k: int| 0 <= k < n implies is_met(hits, h, k, p + 1) == #[trigger] is_met(
        hits,
        h,
        k,
        p,
    ) by {
        lemma_met_next(hits, h, k, p);
        if groups(hits)[p] == groups(hits)[k] {
            lemma_met_alike(hits, h, k, p, p);
        }
    }
    assert forall|k: int| 0 <= k < n && is_met(hits, h, k, p + 1) implies #[trigger] labels[k]
        == labels[n] by {
        assert(is_met(hits, h, k, p));
    }
    assert forall|k: int| 0 <= k < n && !is_met(hits, h, k, p + 1) implies #[trigger] labels[k]
        == groups(hits)[k] by {
        assert(!is_met(hits, h, k, p));
    }
    assert forall|j: int| #[trigger] is_last_met(hits, h, j, p + 1) implies labels[n] == groups(
        hits,
    )[j] by {
        assert(j != p);
        assert(is_last_met(hits, h, j, p));
    }
    if exists|j: int| #[trigger] is_last_met(hits, h, j, p) {
        let j = choose|j: int| #[trigger] is_last_met(hits, h, j, p);
        assert(is_last_met(hits, h, j, p + 1));
    } else {
        assert(!similar(h, hits[p])) by {
            if is_met(hits, h, p, p) {
                let j = choose|j: int|
                    0 <= j < p && similar(h, #[trigger] hits[j]) && groups(hits)[j] == groups(
                        hits,
                    )[p];
                assert(similar(h, hits[j]));
            }
        }
    }
}

/// A hit of a face that has not been met joins it to those that have been, under its label.
proof fn lemma_joined_now(hits: Seq<Hit>, h: Hit, p: int, before: Seq<int>, labels: Seq<int>)
    requires
        0 <= p < hits.len(),
        groups(hits).len() == hits.len(),
        forall|k: int| 0 <= k < hits.len() ==> 0 <= #[trigger] groups(hits)[k] < hits.len(),
        is_joined(hits, h, p, before),
        similar(h, hits[p]),
        !is_met(hits, h, p, p),
        labels == merged(before, hits.len() as int, p),
    ensures
        is_joined(hits, h, p + 1, labels),
{
    let n = hits.len() as int;
    let names = groups(hits);
    assert(before[p] == names[p]);
    // Only hits that have been met bear the label of `h`.
    assert forall|k: int| 0 <= k < n && !is_met(hits, h, k, p) implies #[trigger] names[k]
        != before[n] by {
        if names[k] == before[n] {
            assert(before[n] != n);
            let j = choose|j: int| #[trigger] is_last_met(hits, h, j, p);
            assert(names[j] == names[k]);
            assert(similar(h, hits[j]));
            assert(is_met(hits, h, k, p));
        }
    }
    assert(labels[n] == names[p]);
    assert forall|k: int| 0 <= k < n && is_met(hits, h, k, p + 1) implies #[trigger] labels[k]
        == labels[n] by {
        lemma_met_next(hits, h, k, p);
        if is_met(hits, h, k, p) {
            assert(before[k] == before[n]);
        } else {
            assert(before[k] == names[k]);
        }
    }
    assert forall|k: int| 0 <= k < n && !is_met(hits, h, k, p + 1) implies #[trigger] labels[k]
        == names[k] by {
        lemma_met_next(hits, h, k, p);
        assert(before[k] == names[k]);
        assert(names[k] != before[n]);
    }
    assert(is_last_met(hits, h, p, p + 1));
    assert forall|j: int| #[trigger] is_last_met(hits, h, j, p + 1) implies labels[n]
        == names[j] by {
        if j < p {
            assert(is_met(hits, h, p, p));
        }
    }
}

/// Labels once the pairs of the last hit with the first `m` hits have been looked at.
proof fn lemma_labels_of_last(hits: Seq<Hit>, h: Hit, m: nat)
    requires
        m <= hits.len(),
    ensures
        is_joined(hits, h, m as int, labels_at(hits.push(h), hits.len(), m)),
    decreases m,
{
    let n = hits.len() as int;
    let more = hits.push(h);
    lemma_label_bears_itself(hits, hits.len(), 0);
    let labels = labels_at(more, hits.len(), m);
    if m == 0 {
        lemma_labels_of_front(hits, h, hits.len(), 0);
        assert forall|k: int| 0 <= k < n implies #[trigger] labels[k] == groups(hits)[k] by {}
        assert forall|k: int| !#[trigger] is_met(hits, h, k, 0) by {}
        assert forall|k: int| !#[trigger] is_last_met(hits, h, k, 0) by {}
    } else {
        let p = m - 1;
        let before = labels_at(more, hits.len(), (m - 1) as nat);
        lemma_labels_of_last(hits, h, (m - 1) as nat);
        assert(more[n] == h && more[p] == hits[p]);
        if similar(h, hits[p]) && !is_met(hits, h, p, p) {
            lemma_joined_now(hits, h, p, before, labels);
        } else {
            lemma_joined_already(hits, h, p, before);
            if similar(h, hits[p]) {
                assert(before[p] == before[n]);
                assert(labels =~= before);
            }
        }
    }
}

/// How labels come about, hit by hit: one that meets no face is labelled by its own number. One that
/// meets faces joins them all into one, which bears the label of the face that was met last; the
/// others keep theirs.
pub proof fn law_another_hit_joins_the_faces_it_meets(hits: Seq<Hit>, h: Hit, k: int, j: int)
    requires
        0 <= k < hits.len(),
    ensures
        ({
            let n = hits.len() as int;
            let labels = groups(hits.push(h));
            &&& labels.len() == n + 1
            &&& (forall|m: int| 0 <= m < n ==> !similar(h, #[trigger] hits[m])) ==> labels[n] == n
            &&& is_last_met(hits, h, j, n) ==> labels[n] == groups(hits)[j]
            &&& is_met(hits, h, k, n) ==> labels[k] == labels[n]
            &&& !is_met(hits, h, k, n) ==> labels[k] == groups(hits)[k]
        }),
{
    lemma_labels_of_last(hits, h, hits.len());
    assert(groups(hits.push(h)) == labels_at(hits.push(h), hits.len(), hits.len()));
}

} // verus!
