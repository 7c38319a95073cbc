//! Cascade files, as `opencv_traincascade -featureType LBP` writes them.

use crate::face::markup::are_numbers;
use crate::face::markup::close_tag;
use crate::face::markup::contents;
use crate::face::markup::elements;
use crate::face::markup::find;
use crate::face::markup::found;
use crate::face::markup::numbers;
use crate::face::markup::numbers_of;
use crate::face::markup::open_tag;
use crate::face::markup::part;
use crate::face::markup::texts;
use crate::face::markup::words;
use crate::face::markup::words_from;
use crate::text::characters;
use vstd::prelude::*;

verus! {

/// A decision on one local binary pattern. Leaf values are kept as they are written, since they
/// only matter to the sum that a stage is judged by.
pub struct Stump {
    pub feature: usize,
    /// Bitset over the 256 codes; a set bit selects the first leaf.
    pub subset: [u32; 8],
    pub leaves: Vec<Vec<char>>,
}

/// Stumps whose chosen leaves must together reach a threshold.
pub struct Stage {
    pub threshold: Vec<Vec<char>>,
    pub stumps: Vec<Stump>,
}

/// A window shows a face when it passes every stage.
pub struct Cascade {
    pub stages: Vec<Stage>,
    /// Top-left cell of each feature's 3x3 grid, plus the cell size: `[x, y, w, h]`.
    pub features: Vec<[usize; 4]>,
}

/// The contents of a [`Stump`].
pub struct StumpModel {
    pub feature: usize,
    pub subset: Seq<u32>,
    pub leaves: Seq<Seq<char>>,
}

/// The contents of a [`Stage`].
pub struct StageModel {
    pub threshold: Seq<Seq<char>>,
    pub stumps: Seq<StumpModel>,
}

/// The contents of a [`Cascade`].
pub struct CascadeModel {
    pub stages: Seq<StageModel>,
    pub features: Seq<Seq<usize>>,
}

impl View for Stump {
    type V = StumpModel;

    open spec fn view(&self) -> StumpModel {
        StumpModel { feature: self.feature, subset: self.subset@, leaves: texts(self.leaves@) }
    }
}

impl View for Stage {
    type V = StageModel;

    open spec fn view(&self) -> StageModel {
        StageModel {
            threshold: texts(self.threshold@),
            stumps: self.stumps@.map_values(|stump: Stump| stump@),
        }
    }
}

impl View for Cascade {
    type V = CascadeModel;

    open spec fn view(&self) -> CascadeModel {
        CascadeModel {
            stages: self.stages@.map_values(|stage: Stage| stage@),
            features: self.features@.map_values(|feature: [usize; 4]| feature@),
        }
    }
}

/// Contents of every `<tag>` element of `text`.
pub open spec fn elements_of(text: Seq<char>, tag: Seq<char>) -> Seq<Seq<char>> {
    contents(text, open_tag(tag), close_tag(tag), 0)
}

/// A node is written as left, right, feature index, then the 8-word subset.
pub open spec fn stump_of(node: Seq<char>, leaves: Seq<char>) -> Option<StumpModel> {
    match numbers_of::<i32>(words_from(node, 0)) {
        Some(n) if n.len() >= 11 && words_from(leaves, 0).len() >= 2 => Some(
            StumpModel {
                feature: n[2] as usize,
                subset: Seq::new(8, |i: int| n[3 + i] as u32),
                leaves: words_from(leaves, 0),
            },
        ),
        _ => None,
    }
}

/// The stumps from number `from` up to, but without, number `to`.
pub open spec fn stumps_of(
    nodes: Seq<Seq<char>>,
    leaves: Seq<Seq<char>>,
    from: nat,
    to: nat,
) -> Option<Seq<StumpModel>> {
    if forall|k: int| from <= k < to ==> stump_of(#[trigger] nodes[k], leaves[k]) is Some {
        Some(
            Seq::new(
                (to - from) as nat,
                |k: int| stump_of(nodes[from + k], leaves[from + k])->0,
            ),
        )
    } else {
        None
    }
}

/// The number that the first word of a count denotes, if all its words denote numbers.
pub open spec fn count_of(count: Seq<char>) -> Option<usize> {
    match numbers_of::<usize>(words_from(count, 0)) {
        Some(n) if n.len() > 0 => Some(n[0]),
        _ => None,
    }
}

/// Where the stumps of a stage of `count` stumps end, if it starts behind `used` stumps of
/// `available`.
pub open spec fn stage_end(used: nat, count: nat, available: nat) -> nat {
    if used + count <= available {
        used + count
    } else {
        available
    }
}

/// The stages from number `k` on. Each takes its stumps from where the one before it stopped.
pub open spec fn stages_of(
    nodes: Seq<Seq<char>>,
    leaves: Seq<Seq<char>>,
    counts: Seq<Seq<char>>,
    thresholds: Seq<Seq<char>>,
    k: nat,
    used: nat,
) -> Option<Seq<StageModel>>
    decreases counts.len() - k,
{
    if k >= counts.len() || k >= thresholds.len() {
        Some(Seq::empty())
    } else {
        let available = if nodes.len() <= leaves.len() {
            nodes.len()
        } else {
            leaves.len()
        };
        let threshold = words_from(thresholds[k as int], 0);
        match count_of(counts[k as int]) {
            Some(count) if threshold.len() > 0 => {
                let end = stage_end(used, count as nat, available);
                match (
                    stumps_of(nodes, leaves, used, end),
                    stages_of(nodes, leaves, counts, thresholds, k + 1, end),
                ) {
                    (Some(stumps), Some(rest)) => Some(
                        seq![StageModel { threshold, stumps }] + rest,
                    ),
                    _ => None,
                }
            },
            _ => None,
        }
    }
}

/// A feature is four numbers.
pub open spec fn feature_of(rect: Seq<char>) -> Option<Seq<usize>> {
    match numbers_of::<usize>(words_from(rect, 0)) {
        Some(n) if n.len() == 4 => Some(n),
        _ => None,
    }
}

pub open spec fn features_of(rects: Seq<Seq<char>>) -> Option<Seq<Seq<usize>>> {
    if forall|k: int| 0 <= k < rects.len() ==> feature_of(#[trigger] rects[k]) is Some {
        Some(rects.map_values(|rect: Seq<char>| feature_of(rect)->0))
    } else {
        None
    }
}

/// The cascade of the text between `<stages>` and the first `<features>` behind it, and of the
/// text behind that.
pub open spec fn cascade_of(stages: Seq<char>, features: Seq<char>) -> Option<CascadeModel> {
    match (
        stages_of(
            elements_of(stages, "internalNodes"@),
            elements_of(stages, "leafValues"@),
            elements_of(stages, "maxWeakCount"@),
            elements_of(stages, "stageThreshold"@),
            0,
            0,
        ),
        features_of(elements_of(features, "rect"@)),
    ) {
        (Some(stages), Some(features)) => Some(CascadeModel { stages, features }),
        _ => None,
    }
}

/// The cascade that a file describes, if it is well formed.
pub open spec fn parsed(xml: Seq<char>) -> Option<CascadeModel> {
    match found(xml, "<stages>"@, 0) {
        Some(i) => {
            let rest = xml.skip(i + "<stages>"@.len());
            match found(rest, "<features>"@, 0) {
                Some(j) => cascade_of(rest.take(j), rest.skip(j + "<features>"@.len())),
                None => None,
            }
        },
        None => None,
    }
}

fn read_stump(node: &[char], leaves: &[char]) -> (stump: Option<Stump>)
    ensures
        match stump {
            Some(stump) => stump_of(node@, leaves@) == Some(stump@),
            None => stump_of(node@, leaves@) is None,
        },
{
    if !are_numbers::<i32>(node) {
        return None;
    }
    let n: Vec<i32> = numbers(node);
    let leaves: Vec<Vec<char>> = words(leaves);
    if n.len() < 11 || leaves.len() < 2 {
        return None;
    }
    let subset: [u32; 8] = [
        n[3] as u32,
        n[4] as u32,
        n[5] as u32,
        n[6] as u32,
        n[7] as u32,
        n[8] as u32,
        n[9] as u32,
        n[10] as u32,
    ];
    assert(subset@ =~= Seq::new(8, |i: int| n@[3 + i] as u32));
    Some(Stump { feature: n[2] as usize, subset, leaves })
}

fn read_stumps(
    nodes: &Vec<Vec<char>>,
    leaves: &Vec<Vec<char>>,
    from: usize,
    to: usize,
) -> (stumps: Option<Vec<Stump>>)
    requires
        from <= to,
        to <= nodes@.len(),
        to <= leaves@.len(),
    ensures
        match stumps {
            Some(stumps) => stumps_of(
                texts(nodes@),
                texts(leaves@),
                from as nat,
                to as nat,
            ) == Some(stumps@.map_values(|stump: Stump| stump@)),
            None => stumps_of(texts(nodes@), texts(leaves@), from as nat, to as nat) is None,
        },
{
    let ghost node_texts = texts(nodes@);
    let ghost leaf_texts = texts(leaves@);
    let mut stumps: Vec<Stump> = Vec::new();
    let mut k: usize = from;
    while k < to
        invariant
            from <= k <= to,
            to <= nodes@.len(),
            to <= leaves@.len(),
            node_texts == texts(nodes@),
            leaf_texts == texts(leaves@),
            stumps@.len() == k - from,
            forall|m: int|
                from <= m < k ==> stump_of(#[trigger] node_texts[m], leaf_texts[m]) == Some(
                    stumps@[m - from]@,
                ),
        decreases to - k,
    {
        assert(node_texts[k as int] == nodes@[k as int]@);
        assert(leaf_texts[k as int] == leaves@[k as int]@);
        match read_stump(nodes[k].as_slice(), leaves[k].as_slice()) {
            Some(stump) => stumps.push(stump),
            None => return None,
        }
        k = k + 1;
    }
    proof {
        let list = stumps@.map_values(|stump: Stump| stump@);
        let wanted = stumps_of(node_texts, leaf_texts, from as nat, to as nat)->0;
        assert forall|m: int| 0 <= m < list.len() implies list[m] == wanted[m] by {
            assert(node_texts[from + m] == nodes@[from + m]@);
        }
        assert(list =~= wanted);
    }
    Some(stumps)
}

fn read_stages(stages: &[char]) -> (list: Option<Vec<Stage>>)
    ensures
        ({
            let wanted = stages_of(
                elements_of(stages@, "internalNodes"@),
                elements_of(stages@, "leafValues"@),
                elements_of(stages@, "maxWeakCount"@),
                elements_of(stages@, "stageThreshold"@),
                0,
                0,
            );
            match list {
                Some(list) => wanted == Some(list@.map_values(|stage: Stage| stage@)),
                None => wanted is None,
            }
        }),
{
    let nodes: Vec<Vec<char>> = elements(stages, characters("internalNodes").as_slice());
    let leaves: Vec<Vec<char>> = elements(stages, characters("leafValues").as_slice());
    let counts: Vec<Vec<char>> = elements(stages, characters("maxWeakCount").as_slice());
    let thresholds: Vec<Vec<char>> = elements(stages, characters("stageThreshold").as_slice());
    let ghost (ns, ls, cs, ts) = (
        texts(nodes@),
        texts(leaves@),
        texts(counts@),
        texts(thresholds@),
    );
    let available: usize = if nodes.len() <= leaves.len() {
        nodes.len()
    } else {
        leaves.len()
    };
    let ghost all = stages_of(ns, ls, cs, ts, 0, 0);
    let mut list: Vec<Stage> = Vec::new();
    let mut used: usize = 0;
    let mut k: usize = 0;
    assert(all is Some ==> list@.map_values(|stage: Stage| stage@) + all->0 =~= all->0);
    while k < counts.len() && k < thresholds.len()
        invariant
            ns == texts(nodes@),
            ls == texts(leaves@),
            cs == texts(counts@),
            ts == texts(thresholds@),
            ns == elements_of(stages@, "internalNodes"@),
            ls == elements_of(stages@, "leafValues"@),
            cs == elements_of(stages@, "maxWeakCount"@),
            ts == elements_of(stages@, "stageThreshold"@),
            available == (if nodes@.len() <= leaves@.len() {
                nodes@.len()
            } else {
                leaves@.len()
            }),
            used <= available,
            k <= counts@.len(),
            k <= thresholds@.len(),
            all == stages_of(ns, ls, cs, ts, 0, 0),
            all is Some <==> stages_of(ns, ls, cs, ts, k as nat, used as nat) is Some,
            all is Some ==> all->0 == list@.map_values(|stage: Stage| stage@) + stages_of(
                ns,
                ls,
                cs,
                ts,
                k as nat,
                used as nat,
            )->0,
        decreases counts@.len() - k,
    {
        assert(cs[k as int] == counts@[k as int]@);
        assert(ts[k as int] == thresholds@[k as int]@);
        let threshold: Vec<Vec<char>> = words(thresholds[k].as_slice());
        if !are_numbers::<usize>(counts[k].as_slice()) {
            return None;
        }
        let count: Vec<usize> = numbers(counts[k].as_slice());
        if threshold.len() == 0 || count.len() == 0 {
            return None;
        }
        let end: usize = if count[0] <= available - used {
            used + count[0]
        } else {
            available
        };
        let stumps: Vec<Stump> = match read_stumps(&nodes, &leaves, used, end) {
            Some(stumps) => stumps,
            None => return None,
        };
        let ghost before = list@;
        let stage: Stage = Stage { threshold, stumps };
        list.push(stage);
        proof {
            let rest = stages_of(ns, ls, cs, ts, (k + 1) as nat, end as nat);
            assert(list@.map_values(|stage: Stage| stage@) =~= before.map_values(
                |stage: Stage| stage@,
            ).push(stage@));
            if rest is Some {
                assert(before.map_values(|stage: Stage| stage@) + (seq![stage@] + rest->0)
                    =~= list@.map_values(|stage: Stage| stage@) + rest->0);
            }
        }
        used = end;
        k = k + 1;
    }
    assert(list@.map_values(|stage: Stage| stage@) + Seq::<StageModel>::empty()
        =~= list@.map_values(|stage: Stage| stage@));
    Some(list)
}

fn read_features(features: &[char]) -> (list: Option<Vec<[usize; 4]>>)
    ensures
        match list {
            Some(list) => features_of(elements_of(features@, "rect"@)) == Some(
                list@.map_values(|feature: [usize; 4]| feature@),
            ),
            None => features_of(elements_of(features@, "rect"@)) is None,
        },
{
    let rects: Vec<Vec<char>> = elements(features, characters("rect").as_slice());
    let ghost all = texts(rects@);
    let mut list: Vec<[usize; 4]> = Vec::new();
    let mut k: usize = 0;
    while k < rects.len()
        invariant
            all == texts(rects@),
            all == elements_of(features@, "rect"@),
            k <= rects@.len(),
            list@.len() == k,
            forall|m: int| 0 <= m < k ==> feature_of(#[trigger] all[m]) == Some(list@[m]@),
        decreases rects@.len() - k,
    {
        assert(all[k as int] == rects@[k as int]@);
        if !are_numbers::<usize>(rects[k].as_slice()) {
            return None;
        }
        let n: Vec<usize> = numbers(rects[k].as_slice());
        if n.len() != 4 {
            return None;
        }
        let feature: [usize; 4] = [n[0], n[1], n[2], n[3]];
        assert(feature@ =~= n@);
        list.push(feature);
        k = k + 1;
    }
    assert(list@.map_values(|feature: [usize; 4]| feature@) =~= all.map_values(
        |rect: Seq<char>| feature_of(rect)->0,
    ));
    Some(list)
}

/// Reads a cascade file, if it is well formed.
fn read(xml: &str) -> (cascade: Option<Cascade>)
    ensures
        match cascade {
            Some(cascade) => parsed(xml@) == Some(cascade@),
            None => parsed(xml@) is None,
        },
{
    let text: Vec<char> = characters(xml);
    let stages_tag: Vec<char> = characters("<stages>");
    let features_tag: Vec<char> = characters("<features>");
    assert(text.len() == text@.len());
    let i: usize = match find(text.as_slice(), stages_tag.as_slice(), 0) {
        Some(i) => i + stages_tag.len(),
        None => return None,
    };
    let rest: Vec<char> = part(text.as_slice(), i, text.len());
    assert(rest@ =~= xml@.skip(i as int));
    assert(rest.len() == rest@.len());
    let j: usize = match find(rest.as_slice(), features_tag.as_slice(), 0) {
        Some(j) => j,
        None => return None,
    };
    let stages: Vec<char> = part(rest.as_slice(), 0, j);
    assert(stages@ =~= rest@.take(j as int));
    let features: Vec<char> = part(rest.as_slice(), j + features_tag.len(), rest.len());
    assert(features@ =~= rest@.skip(j + features_tag@.len()));
    let stages: Vec<Stage> = match read_stages(stages.as_slice()) {
        Some(stages) => stages,
        None => return None,
    };
    let features: Vec<[usize; 4]> = match read_features(features.as_slice()) {
        Some(features) => features,
        None => return None,
    };
    Some(Cascade { stages, features })
}

/// Whether a cascade file is well formed: it has stages and features behind them, and holds the
/// integers that they need. Thresholds and leaf values only have to be there: they are kept as
/// words, and not checked to be numbers.
pub fn is_well_formed(xml: &str) -> (r: bool)
    ensures
        r == (parsed(xml@) is Some),
{
    read(xml).is_some()
}

/// Reads an OpenCV cascade file. Only depth-1 trees (stumps) are supported, which is what
/// `opencv_traincascade -featureType LBP` produces by default.
pub fn parse(xml: &str) -> (cascade: Cascade)
    requires
        parsed(xml@) is Some,
    ensures
        parsed(xml@) == Some(cascade@),
{
    read(xml).unwrap()
}

} // verus!
