//! Grouping of overlapping detection windows.

use vstd::prelude::*;

verus! {

/// A face needs more than this many overlapping hits; fewer are usually false positives.
pub const MIN_NEIGHBOURS: usize = 3;

/// Two hits count as the same face while they differ by no more than one part in this many of
/// their size.
pub const GROUP_PARTS: u128 = 5;

/// A detection window in which the cascade saw a face.
#[derive(Debug, Clone, Copy, PartialEq, Eq, Structural)]
pub struct Hit {
    pub x: usize,
    pub y: usize,
    pub width: usize,
    pub height: usize,
}

/// A group of hits: how many there are, and the sums of their corners and sizes. Its box is the
/// mean of the hits.
#[derive(Debug, Clone, Copy, PartialEq, Eq, Structural)]
pub struct Face {
    pub count: usize,
    pub x: u128,
    pub y: u128,
    pub width: u128,
    pub height: u128,
}

/// What a [`Face`] counts and sums up.
pub struct Totals {
    pub count: nat,
    pub x: nat,
    pub y: nat,
    pub width: nat,
    pub height: nat,
}

impl View for Face {
    type V = Totals;

    open spec fn view(&self) -> Totals {
        Totals {
            count: self.count as nat,
            x: self.x as nat,
            y: self.y as nat,
            width: self.width as nat,
            height: self.height as nat,
        }
    }
}

pub open spec fn smaller(a: int, b: int) -> int {
    if a <= b {
        a
    } else {
        b
    }
}

/// `a` and `b` differ by at most half of one [`GROUP_PARTS`]th of `size`.
pub open spec fn near(a: int, b: int, size: int) -> bool {
    -size <= 2 * GROUP_PARTS * (a - b) <= size
}

/// All four edges of the two hits are near each other, relative to the smaller width and height.
pub open spec fn similar(a: Hit, b: Hit) -> bool {
    let size = smaller(a.width as int, b.width as int) + smaller(a.height as int, b.height as int);
    &&& near(a.x as int, b.x as int, size)
    &&& near(a.y as int, b.y as int, size)
    &&& near(a.x + a.width, b.x + b.width, size)
    &&& near(a.y + a.height, b.y + b.height, size)
}

/// The labels once the group of `i` has taken the label of the group of `j`.
pub open spec fn merged(labels: Seq<int>, i: int, j: int) -> Seq<int> {
    Seq::new(
        labels.len(),
        |k: int|
            if labels[k] == labels[i] {
                labels[j]
            } else {
                labels[k]
            },
    )
}

/// Labels of the hits once every pair of a hit before `i` with an earlier one, and of hit `i` with
/// each hit before `j`, has been merged if it is similar. At first each hit is a group of its own.
pub open spec fn labels_at(hits: Seq<Hit>, i: nat, j: nat) -> Seq<int>
    decreases i, j,
{
    if j > 0 {
        let before = labels_at(hits, i, (j - 1) as nat);
        if similar(hits[i as int], hits[j - 1]) {
            merged(before, i as int, j - 1)
        } else {
            before
        }
    } else if i > 0 {
        labels_at(hits, (i - 1) as nat, (i - 1) as nat)
    } else {
        Seq::new(hits.len(), |k: int| k)
    }
}

/// The label of each hit's group.
pub open spec fn groups(hits: Seq<Hit>) -> Seq<int> {
    labels_at(hits, hits.len(), 0)
}

/// Totals over those of the first `n` hits that are labelled `g`.
pub open spec fn totals(hits: Seq<Hit>, labels: Seq<int>, g: int, n: nat) -> Totals
    decreases n,
{
    if n == 0 {
        Totals { count: 0, x: 0, y: 0, width: 0, height: 0 }
    } else {
        let rest = totals(hits, labels, g, (n - 1) as nat);
        let hit = hits[n - 1];
        if labels[n - 1] == g {
            Totals {
                count: rest.count + 1,
                x: rest.x + hit.x as nat,
                y: rest.y + hit.y as nat,
                width: rest.width + hit.width as nat,
                height: rest.height + hit.height as nat,
            }
        } else {
            rest
        }
    }
}

/// Totals of the group labelled `g`.
pub open spec fn group(hits: Seq<Hit>, g: int) -> Totals {
    totals(hits, groups(hits), g, hits.len())
}

/// No group is larger than the one labelled `g`, and none with a later label is as large.
pub open spec fn is_largest(hits: Seq<Hit>, g: int) -> bool {
    &&& 0 <= g < hits.len()
    &&& forall|s: int|
        0 <= s < hits.len() ==> (#[trigger] group(hits, s)).count <= group(hits, g).count
    &&& forall|s: int|
        g < s < hits.len() ==> (#[trigger] group(hits, s)).count < group(hits, g).count
}

/// `face` is the largest group, or there is none and no group has more than [`MIN_NEIGHBOURS`]
/// hits.
pub open spec fn is_strongest(hits: Seq<Hit>, face: Option<Face>) -> bool {
    match face {
        Some(face) => {
            &&& face.count > MIN_NEIGHBOURS
            &&& exists|g: int| #[trigger] is_largest(hits, g) && face@ == group(hits, g)
        },
        None => forall|g: int|
            0 <= g < hits.len() ==> (#[trigger] group(hits, g)).count <= MIN_NEIGHBOURS,
    }
}

/// Each hit points to one of its group that is nearer to the hit that names the group.
spec fn is_forest(parent: Seq<usize>, labels: Seq<int>, depth: Seq<nat>) -> bool {
    &&& parent.len() == labels.len()
    &&& depth.len() == labels.len()
    &&& forall|k: int|
        #![trigger parent[k]]
        #![trigger labels[k]]
        0 <= k < labels.len() ==> {
            &&& parent[k] < labels.len()
            &&& 0 <= labels[k] < labels.len()
            &&& parent[labels[k]] == labels[k]
            &&& labels[parent[k] as int] == labels[k]
            &&& parent[k] == k ==> labels[k] == k
            &&& parent[k] != k ==> depth[parent[k] as int] < depth[k]
        }
}

/// The hit that names the group of hit `i`.
fn root(
    parent: &Vec<usize>,
    i: usize,
    Ghost(labels): Ghost<Seq<int>>,
    Ghost(depth): Ghost<Seq<nat>>,
) -> (r: usize)
    requires
        is_forest(parent@, labels, depth),
        i < labels.len(),
    ensures
        r == labels[i as int],
        r < labels.len(),
        parent@[r as int] == r,
{
    let mut at: usize = i;
    while parent[at] != at
        invariant
            is_forest(parent@, labels, depth),
            at < labels.len(),
            labels[at as int] == labels[i as int],
        decreases depth[at as int],
    {
        assert(parent@[at as int] != at);
        at = parent[at];
    }
    assert(parent@[at as int] == at);
    at
}

fn is_near(a: u128, b: u128, size: u128) -> (r: bool)
    requires
        a <= 2 * u64::MAX,
        b <= 2 * u64::MAX,
    ensures
        r == near(a as int, b as int, size as int),
{
    if a >= b {
        2 * GROUP_PARTS * (a - b) <= size
    } else {
        2 * GROUP_PARTS * (b - a) <= size
    }
}

fn is_similar(a: &Hit, b: &Hit) -> (r: bool)
    ensures
        r == similar(*a, *b),
{
    let width: usize = if a.width <= b.width {
        a.width
    } else {
        b.width
    };
    let height: usize = if a.height <= b.height {
        a.height
    } else {
        b.height
    };
    let size: u128 = width as u128 + height as u128;
    is_near(a.x as u128, b.x as u128, size) && is_near(a.y as u128, b.y as u128, size) && is_near(
        a.x as u128 + a.width as u128,
        b.x as u128 + b.width as u128,
        size,
    ) && is_near(a.y as u128 + a.height as u128, b.y as u128 + b.height as u128, size)
}

/// Pointing the hit that names one group at the hit that names another merges the two.
proof fn lemma_link(
    parent: Seq<usize>,
    labels: Seq<int>,
    depth: Seq<nat>,
    i: int,
    j: int,
) -> (deeper: Seq<nat>)
    requires
        is_forest(parent, labels, depth),
        0 <= i < labels.len(),
        0 <= j < labels.len(),
        labels.len() <= usize::MAX,
    ensures
        is_forest(
            parent.update(labels[i], labels[j] as usize),
            merged(labels, i, j),
            deeper,
        ),
{
    let (ri, rj) = (labels[i], labels[j]);
    assert(parent[i] < labels.len() && parent[j] < labels.len());
    assert(parent[ri] == ri && parent[rj] == rj);
    assert(labels[ri] == ri && labels[rj] == rj);
    let after = merged(labels, i, j);
    let linked = parent.update(ri, rj as usize);
    if ri == rj {
        assert(linked =~= parent);
        assert(after =~= labels);
        depth
    } else {
        let deeper = Seq::new(
            depth.len(),
            |k: int|
                if labels[k] == ri {
                    depth[k] + depth[rj] + 1
                } else {
                    depth[k]
                },
        );
        assert forall|k: int| 0 <= k < labels.len() implies {
            &&& (#[trigger] linked[k]) < labels.len()
            &&& 0 <= after[k] < labels.len()
            &&& linked[after[k]] == after[k]
            &&& after[linked[k] as int] == after[k]
            &&& linked[k] == k ==> after[k] == k
            &&& linked[k] != k ==> deeper[linked[k] as int] < deeper[k]
        } by {
            assert(parent[k] < labels.len());
            assert(parent[labels[k]] == labels[k]);
        }
        deeper
    }
}

/// A group has no more hits than there are, and its sums are bounded by their number.
pub proof fn lemma_totals_bounds(hits: Seq<Hit>, labels: Seq<int>, g: int, n: nat)
    ensures
        totals(hits, labels, g, n).count <= n,
        totals(hits, labels, g, n).x <= n * u64::MAX,
        totals(hits, labels, g, n).y <= n * u64::MAX,
        totals(hits, labels, g, n).width <= n * u64::MAX,
        totals(hits, labels, g, n).height <= n * u64::MAX,
    decreases n,
{
    if n > 0 {
        lemma_totals_bounds(hits, labels, g, (n - 1) as nat);
        assert(n * u64::MAX == (n - 1) * u64::MAX + u64::MAX) by (nonlinear_arith);
    }
}

/// Merges every similar pair of hits and returns the label of each hit's group.
fn label(hits: &[Hit]) -> (labels: Vec<usize>)
    ensures
        labels@.len() == hits@.len(),
        forall|k: int|
            0 <= k < hits@.len() ==> #[trigger] labels@[k] == groups(hits@)[k] && labels@[k]
                < hits@.len(),
{
    let n: usize = hits.len();
    let mut parent: Vec<usize> = Vec::new();
    let mut k: usize = 0;
    while k < n
        invariant
            n == hits@.len(),
            k <= n,
            parent@.len() == k,
            forall|m: int| 0 <= m < k ==> parent@[m] == m,
        decreases n - k,
    {
        parent.push(k);
        k = k + 1;
    }
    let ghost mut names = labels_at(hits@, 0, 0);
    let ghost mut depth = Seq::new(hits@.len(), |k: int| 0nat);
    let mut i: usize = 0;
    while i < n
        invariant
            n == hits@.len(),
            i <= n,
            names == labels_at(hits@, i as nat, 0),
            names.len() == n,
            is_forest(parent@, names, depth),
        decreases n - i,
    {
        let mut j: usize = 0;
        while j < i
            invariant
                n == hits@.len(),
                i < n,
                j <= i,
                names == labels_at(hits@, i as nat, j as nat),
                names.len() == n,
                is_forest(parent@, names, depth),
            decreases i - j,
        {
            if is_similar(&hits[i], &hits[j]) {
                let ri: usize = root(&parent, i, Ghost(names), Ghost(depth));
                let rj: usize = root(&parent, j, Ghost(names), Ghost(depth));
                proof {
                    depth = lemma_link(parent@, names, depth, i as int, j as int);
                    names = merged(names, i as int, j as int);
                }
                parent.set(ri, rj);
            }
            j = j + 1;
        }
        i = i + 1;
    }
    let mut labels: Vec<usize> = Vec::new();
    let mut k: usize = 0;
    while k < n
        invariant
            n == hits@.len(),
            k <= n,
            names == groups(hits@),
            names.len() == n,
            is_forest(parent@, names, depth),
            labels@.len() == k,
            forall|m: int| 0 <= m < k ==> #[trigger] labels@[m] == names[m] && labels@[m] < n,
        decreases n - k,
    {
        let r: usize = root(&parent, k, Ghost(names), Ghost(depth));
        labels.push(r);
        k = k + 1;
    }
    labels
}

/// Groups overlapping hits and returns the largest group, if it has more than
/// [`MIN_NEIGHBOURS`] hits. Of groups of the same size the one with the latest label is taken.
pub fn strongest(hits: &[Hit]) -> (face: Option<Face>)
    ensures
        is_strongest(hits@, face),
{
    let n: usize = hits.len();
    let labels: Vec<usize> = label(hits);
    let ghost names = groups(hits@);
    let mut faces: Vec<Face> = vec![Face { count: 0, x: 0, y: 0, width: 0, height: 0 }; n];
    let mut k: usize = 0;
    while k < n
        invariant
            n == hits@.len(),
            k <= n,
            names == groups(hits@),
            labels@.len() == n,
            forall|m: int| 0 <= m < n ==> #[trigger] labels@[m] == names[m] && labels@[m] < n,
            faces@.len() == n,
            forall|g: int|
                0 <= g < n ==> (#[trigger] faces@[g])@ == totals(hits@, names, g, k as nat),
        decreases n - k,
    {
        let g: usize = labels[k];
        let hit: Hit = hits[k];
        let face: Face = faces[g];
        proof {
            lemma_totals_bounds(hits@, names, g as int, k as nat);
            assert(k * u64::MAX + u64::MAX <= u128::MAX) by (nonlinear_arith)
                requires
                    k < u64::MAX,
            ;
        }
        let grown: Face = Face {
            count: face.count + 1,
            x: face.x + hit.x as u128,
            y: face.y + hit.y as u128,
            width: face.width + hit.width as u128,
            height: face.height + hit.height as u128,
        };
        faces.set(g, grown);
        k = k + 1;
    }
    if n == 0 {
        return None;
    }
    let mut best: usize = 0;
    let mut g: usize = 1;
    while g < n
        invariant
            n == hits@.len(),
            1 <= g <= n,
            best < g,
            names == groups(hits@),
            faces@.len() == n,
            forall|s: int| 0 <= s < n ==> (#[trigger] faces@[s])@ == group(hits@, s),
            forall|s: int| 0 <= s < g ==> (#[trigger] faces@[s]).count <= faces@[best as int].count,
            forall|s: int|
                best < s < g ==> (#[trigger] faces@[s]).count < faces@[best as int].count,
        decreases n - g,
    {
        if faces[g].count >= faces[best].count {
            best = g;
        }
        g = g + 1;
    }
    let face: Face = faces[best];
    proof {
        assert forall|s: int| 0 <= s < n implies (#[trigger] group(hits@, s)).count
            <= face.count by {
            assert(faces@[s]@ == group(hits@, s));
        }
        assert forall|s: int| best < s < n implies (#[trigger] group(hits@, s)).count
            < face.count by {
            assert(faces@[s]@ == group(hits@, s));
        }
        assert(faces@[best as int]@ == group(hits@, best as int));
        assert(is_largest(hits@, best as int));
    }
    if face.count > MIN_NEIGHBOURS {
        Some(face)
    } else {
        None
    }
}

/// A chain of hits from `a` to `b` in which each is similar to the next.
pub open spec fn is_chain(hits: Seq<Hit>, chain: Seq<int>, a: int, b: int) -> bool {
    &&& chain.len() > 0
    &&& chain[0] == a
    &&& chain.last() == b
    &&& forall|k: int| 0 <= k < chain.len() ==> 0 <= #[trigger] chain[k] < hits.len()
    &&& forall|k: int, m: int|
        0 <= k && m == k + 1 && m < chain.len() ==> similar(
            hits[#[trigger] chain[k]],
            hits[#[trigger] chain[m]],
        )
}

pub open spec fn connected(hits: Seq<Hit>, a: int, b: int) -> bool {
    exists|chain: Seq<int>| is_chain(hits, chain, a, b)
}

/// Similarity does not depend on the order of the hits.
proof fn lemma_similar_symmetric(a: Hit, b: Hit)
    requires
        similar(a, b),
    ensures
        similar(b, a),
{
    assert(forall|p: int, q: int, size: int| #[trigger] near(p, q, size) ==> near(q, p, size)) by {
        assert(2 * GROUP_PARTS == 10);
    }
}

proof fn lemma_connected_self(hits: Seq<Hit>, a: int)
    requires
        0 <= a < hits.len(),
    ensures
        connected(hits, a, a),
{
    assert(is_chain(hits, seq![a], a, a));
}

proof fn lemma_connected_back(hits: Seq<Hit>, a: int, b: int)
    requires
        connected(hits, a, b),
    ensures
        connected(hits, b, a),
{
    let chain = choose|chain: Seq<int>| is_chain(hits, chain, a, b);
    let back = Seq::new(chain.len(), |k: int| chain[chain.len() - 1 - k]);
    assert forall|k: int, m: int| 0 <= k && m == k + 1 && m < back.len() implies similar(
        hits[#[trigger] back[k]],
        hits[#[trigger] back[m]],
    ) by {
        lemma_similar_symmetric(hits[chain[chain.len() - 1 - m]], hits[chain[chain.len() - 1 - k]]);
    }
    assert(is_chain(hits, back, b, a));
}

proof fn lemma_connected_through(hits: Seq<Hit>, a: int, b: int, c: int, d: int)
    requires
        connected(hits, a, b),
        connected(hits, c, d),
        similar(hits[b], hits[c]),
    ensures
        connected(hits, a, d),
{
    let front = choose|chain: Seq<int>| is_chain(hits, chain, a, b);
    let back = choose|chain: Seq<int>| is_chain(hits, chain, c, d);
    let whole = front + back;
    assert forall|k: int, m: int| 0 <= k && m == k + 1 && m < whole.len() implies similar(
        hits[#[trigger] whole[k]],
        hits[#[trigger] whole[m]],
    ) by {
        if m < front.len() {
            assert(similar(hits[front[k]], hits[front[m]]));
        } else if k >= front.len() {
            assert(similar(hits[back[k - front.len()]], hits[back[m - front.len()]]));
        }
    }
    assert forall|k: int| 0 <= k < whole.len() implies 0 <= #[trigger] whole[k] < hits.len() by {
        if k < front.len() {
            assert(0 <= front[k] < hits.len());
        } else {
            assert(0 <= back[k - front.len()] < hits.len());
        }
    }
    assert(whole.last() == back.last());
    assert(is_chain(hits, whole, a, d));
}

/// Hits with the same label are connected.
proof fn lemma_same_label_connected(hits: Seq<Hit>, i: nat, j: nat)
    requires
        i <= hits.len(),
        j <= i,
        j > 0 ==> i < hits.len(),
    ensures
        labels_at(hits, i, j).len() == hits.len(),
        forall|a: int, b: int|
            0 <= a < hits.len() && 0 <= b < hits.len() && #[trigger] labels_at(hits, i, j)[a]
                == #[trigger] labels_at(hits, i, j)[b] ==> connected(hits, a, b),
    decreases i, j,
{
    if j > 0 {
        let before = labels_at(hits, i, (j - 1) as nat);
        let after = labels_at(hits, i, j);
        lemma_same_label_connected(hits, i, (j - 1) as nat);
        assert forall|a: int, b: int|
            0 <= a < hits.len() && 0 <= b < hits.len() && #[trigger] after[a]
                == #[trigger] after[b] implies connected(hits, a, b) by {
            if before[a] != before[b] {
                let (p, q) = (i as int, j - 1);
                if before[a] == before[p] {
                    assert(before[b] == before[q]);
                    assert(connected(hits, a, p) && connected(hits, q, b));
                    lemma_connected_through(hits, a, p, q, b);
                } else {
                    assert(before[b] == before[p] && before[a] == before[q]);
                    assert(connected(hits, b, p) && connected(hits, q, a));
                    lemma_connected_through(hits, b, p, q, a);
                    lemma_connected_back(hits, b, a);
                }
            }
        }
    } else if i > 0 {
        lemma_same_label_connected(hits, (i - 1) as nat, (i - 1) as nat);
    } else {
        assert forall|a: int, b: int|
            0 <= a < hits.len() && 0 <= b < hits.len() && #[trigger] labels_at(hits, i, j)[a]
                == #[trigger] labels_at(hits, i, j)[b] implies connected(hits, a, b) by {
            lemma_connected_self(hits, a);
        }
    }
}

/// Similar hits have the same label once their pair has been merged, and keep it.
proof fn lemma_similar_same_label(hits: Seq<Hit>, i: nat, j: nat, a: int, b: int)
    requires
        i <= hits.len(),
        j <= i,
        j > 0 ==> i < hits.len(),
        0 <= b < a,
        a < i || a == i && b < j,
        similar(hits[a], hits[b]),
    ensures
        labels_at(hits, i, j)[a] == labels_at(hits, i, j)[b],
    decreases i, j,
{
    lemma_same_label_connected(hits, i, j);
    if j > 0 {
        lemma_same_label_connected(hits, i, (j - 1) as nat);
        if a < i || b < j - 1 {
            lemma_similar_same_label(hits, i, (j - 1) as nat, a, b);
        }
    } else {
        lemma_similar_same_label(hits, (i - 1) as nat, (i - 1) as nat, a, b);
    }
}

/// Hits on a chain have one label.
proof fn lemma_chain_same_label(hits: Seq<Hit>, chain: Seq<int>, a: int, b: int)
    requires
        is_chain(hits, chain, a, b),
    ensures
        groups(hits)[a] == groups(hits)[b],
    decreases chain.len(),
{
    if chain.len() > 1 {
        let front = chain.drop_last();
        let c = front.last();
        assert(similar(hits[chain[chain.len() - 2]], hits[chain[chain.len() - 1]]));
        assert(is_chain(hits, front, a, c));
        lemma_chain_same_label(hits, front, a, c);
        if c > b {
            lemma_similar_same_label(hits, hits.len(), 0, c, b);
        } else if b > c {
            lemma_similar_symmetric(hits[c], hits[b]);
            lemma_similar_same_label(hits, hits.len(), 0, b, c);
        }
    }
}

/// Two hits are in one group exactly when a chain of similar hits leads from one to the other.
pub proof fn law_groups_are_chains(hits: Seq<Hit>, a: int, b: int)
    requires
        0 <= a < hits.len(),
        0 <= b < hits.len(),
    ensures
        groups(hits)[a] == groups(hits)[b] <==> connected(hits, a, b),
{
    lemma_same_label_connected(hits, hits.len(), 0);
    if connected(hits, a, b) {
        let chain = choose|chain: Seq<int>| is_chain(hits, chain, a, b);
        lemma_chain_same_label(hits, chain, a, b);
    }
}

} // verus!
