//! What is read from a cascade file.

use crate::face::cascade::cascade_of;
use crate::face::cascade::count_of;
use crate::face::cascade::elements_of;
use crate::face::cascade::feature_of;
use crate::face::cascade::features_of;
use crate::face::cascade::parsed;
use crate::face::cascade::stage_end;
use crate::face::cascade::stages_of;
use crate::face::cascade::stump_of;
use crate::face::cascade::stumps_of;
use crate::face::cascade::StageModel;
use crate::face::markup::found;
use crate::face::markup::numbers_of;
use crate::face::markup::words_from;
use crate::face::markup::Number;
use crate::laws::reading::law_the_first_place_is_found;
use vstd::prelude::*;

verus! {

/// Stages are read from what stands between the first `<stages>` and the first `<features>` behind
/// it, features from what follows. A file without the two, in this order, is not read.
pub proof fn law_stages_come_before_features(
    front: Seq<char>,
    stages: Seq<char>,
    features: Seq<char>,
)
    requires
        forall|k: int|
            0 <= k < front.len() ==> #[trigger] (front + "<stages>"@ + (stages + "<features>"@
                + features)).subrange(k, k + 8) != "<stages>"@,
        forall|k: int|
            0 <= k < stages.len() ==> #[trigger] (stages + "<features>"@ + features).subrange(
                k,
                k + 10,
            ) != "<features>"@,
    ensures
        parsed(front + "<stages>"@ + (stages + "<features>"@ + features)) == cascade_of(
            stages,
            features,
        ),
{
    assert("<stages>"@.len() == 8) by {
        reveal_strlit("<stages>");
    }
    assert("<features>"@.len() == 10) by {
        reveal_strlit("<features>");
    }
    lemma_split_at(front, "<stages>"@, stages + "<features>"@ + features);
    lemma_split_at(stages, "<features>"@, features);
}

/// A text is split where a pattern stands in it first.
proof fn lemma_split_at(front: Seq<char>, pattern: Seq<char>, rest: Seq<char>)
    requires
        forall|k: int|
            0 <= k < front.len() ==> #[trigger] (front + pattern + rest).subrange(
                k,
                k + pattern.len(),
            ) != pattern,
    ensures
        found(front + pattern + rest, pattern, 0) == Some(front.len() as int),
        (front + pattern + rest).take(front.len() as int) == front,
        (front + pattern + rest).skip(front.len() as int + pattern.len()) == rest,
{
    let text = front + pattern + rest;
    let at = front.len() as int;
    assert(text.subrange(at, at + pattern.len()) =~= pattern);
    law_the_first_place_is_found(text, pattern, 0, at);
    assert(text.take(at) =~= front);
    assert(text.skip(at + pattern.len()) =~= rest);
}

/// A file is not read where one of the two is missing.
pub proof fn law_both_parts_are_needed(text: Seq<char>)
    requires
        (forall|k: int|
            0 <= k && k + 8 <= text.len() ==> #[trigger] text.subrange(k, k + 8) != "<stages>"@)
            || (forall|k: int|
            0 <= k && k + 10 <= text.len() ==> #[trigger] text.subrange(k, k + 10)
                != "<features>"@),
    ensures
        parsed(text) is None,
{
    reveal_strlit("<stages>");
    reveal_strlit("<features>");
    let (s, f) = ("<stages>"@, "<features>"@);
    law_the_first_place_is_found(text, s, 0, 0);
    if let Some(i) = found(text, s, 0) {
        law_the_first_place_is_found(text, s, 0, i);
        let rest = text.skip(i + s.len());
        assert forall|k: int| 0 <= k && k + f.len() <= rest.len() implies #[trigger] rest.subrange(
            k,
            k + f.len(),
        ) != f by {
            let m = i + s.len() + k;
            assert(rest.subrange(k, k + f.len()) =~= text.subrange(m, m + 10));
        }
        law_the_first_place_is_found(rest, f, 0, 0);
    }
}

/// A stump's feature is the third number of its node and its subset the eight that follow; its
/// leaves are the words of its leaf values. All of a node has to be numbers, of which there are at
/// least eleven; and there are at least two leaves.
pub proof fn law_stumps_are_read_from_their_nodes(node: Seq<char>, leaves: Seq<char>, k: int)
    requires
        0 <= k < 8,
    ensures
        stump_of(node, leaves) is Some <==> {
            &&& words_from(node, 0).len() >= 11
            &&& words_from(leaves, 0).len() >= 2
            &&& forall|i: int|
                0 <= i < words_from(node, 0).len() ==> i32::denoted(
                    #[trigger] words_from(node, 0)[i],
                ) is Some
        },
        stump_of(node, leaves) matches Some(stump) ==> {
            let list = words_from(node, 0);
            &&& stump.feature == i32::denoted(list[2])->0 as usize
            &&& i32::denoted(list[2])->0 >= 0 ==> stump.feature == i32::denoted(list[2])->0
            &&& stump.subset.len() == 8
            &&& stump.subset[k] == i32::denoted(list[3 + k])->0 as u32
            &&& i32::denoted(list[3 + k])->0 >= 0 ==> stump.subset[k] == i32::denoted(
                list[3 + k],
            )->0
            &&& i32::denoted(list[3 + k])->0 < 0 ==> stump.subset[k] == i32::denoted(list[3 + k])->0
                + 0x1_0000_0000
            &&& stump.leaves == words_from(leaves, 0)
        },
{
    let list = words_from(node, 0);
    if numbers_of::<i32>(list) is Some && list.len() >= 11 {
        let n = numbers_of::<i32>(list)->0;
        let w = n[3 + k];
        assert(w < 0 ==> w as u32 == w + 0x1_0000_0000) by (bit_vector);
    }
}

/// A feature is the four numbers of its rectangle, in order: where its top-left cell is, across and
/// down, and how wide and high a cell is. There are as many as rectangles, in their order.
pub proof fn law_features_are_read_from_their_rectangles(rects: Seq<Seq<char>>, k: int, i: int)
    requires
        0 <= k < rects.len(),
        0 <= i < 4,
    ensures
        features_of(rects) is Some <==> forall|m: int|
            0 <= m < rects.len() ==> feature_of(#[trigger] rects[m]) is Some,
        feature_of(rects[k]) is Some <==> {
            &&& words_from(rects[k], 0).len() == 4
            &&& forall|m: int|
                0 <= m < 4 ==> usize::denoted(#[trigger] words_from(rects[k], 0)[m]) is Some
        },
        features_of(rects) matches Some(list) ==> {
            &&& list.len() == rects.len()
            &&& list[k].len() == 4
            &&& usize::denoted(words_from(rects[k], 0)[i]) == Some(list[k][i])
        },
{
    let list = words_from(rects[k], 0);
    if numbers_of::<usize>(list) is Some {
        assert(numbers_of::<usize>(list)->0.len() == list.len());
    }
    if features_of(rects) is Some {
        assert(feature_of(rects[k]) is Some);
    }
}

/// How many stumps the first `m` stages have.
pub open spec fn stumps_before(stages: Seq<StageModel>, m: nat) -> nat
    decreases m,
{
    if m == 0 {
        0
    } else {
        stumps_before(stages, (m - 1) as nat) + stages[m - 1].stumps.len()
    }
}

proof fn lemma_stumps_before_first(stages: Seq<StageModel>, m: nat)
    requires
        0 < m <= stages.len(),
    ensures
        stumps_before(stages, m) == stages[0].stumps.len() + stumps_before(
            stages.drop_first(),
            (m - 1) as nat,
        ),
    decreases m,
{
    if m > 1 {
        lemma_stumps_before_first(stages, (m - 1) as nat);
        assert(stages.drop_first()[m - 2] == stages[m - 1]);
    } else {
        reveal_with_fuel(stumps_before, 2);
    }
}

proof fn lemma_stage(
    nodes: Seq<Seq<char>>,
    leaves: Seq<Seq<char>>,
    counts: Seq<Seq<char>>,
    thresholds: Seq<Seq<char>>,
    from: nat,
    used: nat,
    m: nat,
)
    requires
        used <= nodes.len(),
        used <= leaves.len(),
        from + m < counts.len(),
        from + m < thresholds.len(),
        stages_of(nodes, leaves, counts, thresholds, from, used) is Some,
    ensures
        ({
            let list = stages_of(nodes, leaves, counts, thresholds, from, used)->0;
            let start = used + stumps_before(list, m);
            let count = count_of(counts[(from + m) as int]);
            &&& m < list.len()
            &&& list.len() == counts.len() - from || list.len() == thresholds.len() - from
            &&& list.len() <= counts.len() - from
            &&& list.len() <= thresholds.len() - from
            &&& list[m as int].threshold == words_from(thresholds[(from + m) as int], 0)
            &&& list[m as int].threshold.len() > 0
            &&& count is Some
            &&& start + list[m as int].stumps.len() <= nodes.len()
            &&& start + list[m as int].stumps.len() <= leaves.len()
            &&& list[m as int].stumps.len() == count->0 || (list[m as int].stumps.len() < count->0
                && (start + list[m as int].stumps.len() == nodes.len() || start
                + list[m as int].stumps.len() == leaves.len()))
            &&& forall|j: int|
                0 <= j < list[m as int].stumps.len() ==> stump_of(nodes[start + j], leaves[start + j])
                    == Some(#[trigger] list[m as int].stumps[j])
        }),
    decreases m, counts.len() - from,
{
    let list = stages_of(nodes, leaves, counts, thresholds, from, used)->0;
    let available = if nodes.len() <= leaves.len() {
        nodes.len()
    } else {
        leaves.len()
    };
    let count = count_of(counts[from as int])->0;
    let end = stage_end(used, count as nat, available);
    let stumps = stumps_of(nodes, leaves, used, end)->0;
    let rest = stages_of(nodes, leaves, counts, thresholds, from + 1, end)->0;
    assert(list[0].stumps == stumps);
    assert(list.drop_first() =~= rest);
    lemma_stages_len(nodes, leaves, counts, thresholds, from, used);
    if m == 0 {
        assert forall|j: int| 0 <= j < stumps.len() implies stump_of(
            nodes[used + j],
            leaves[used + j],
        ) == Some(#[trigger] stumps[j]) by {
            assert(stump_of(nodes[used + j], leaves[used + j]) is Some);
        }
    } else {
        lemma_stage(nodes, leaves, counts, thresholds, from + 1, end, (m - 1) as nat);
        lemma_stumps_before_first(list, m);
        assert(list[m as int] == rest[m - 1]);
        assert(counts[(from + m) as int] == counts[from + 1 + (m - 1)]);
    }
}

proof fn lemma_stages_len(
    nodes: Seq<Seq<char>>,
    leaves: Seq<Seq<char>>,
    counts: Seq<Seq<char>>,
    thresholds: Seq<Seq<char>>,
    from: nat,
    used: nat,
)
    requires
        from <= counts.len(),
        from <= thresholds.len(),
        stages_of(nodes, leaves, counts, thresholds, from, used) is Some,
    ensures
        ({
            let n = stages_of(nodes, leaves, counts, thresholds, from, used)->0.len();
            &&& n == counts.len() - from || n == thresholds.len() - from
            &&& n <= counts.len() - from
            &&& n <= thresholds.len() - from
        }),
    decreases counts.len() - from,
{
    if from < counts.len() && from < thresholds.len() {
        let available = if nodes.len() <= leaves.len() {
            nodes.len()
        } else {
            leaves.len()
        };
        let end = stage_end(used, count_of(counts[from as int])->0 as nat, available);
        lemma_stages_len(nodes, leaves, counts, thresholds, from + 1, end);
    }
}

/// Stages take their stumps in turn: each as many as its count says, as long as there are any, from
/// where the one before it stopped. A stage's threshold is kept as its words; there are as many
/// stages as there are counts with a threshold.
pub proof fn law_stages_take_their_stumps_in_turn(
    nodes: Seq<Seq<char>>,
    leaves: Seq<Seq<char>>,
    counts: Seq<Seq<char>>,
    thresholds: Seq<Seq<char>>,
    m: nat,
)
    requires
        m < counts.len(),
        m < thresholds.len(),
        stages_of(nodes, leaves, counts, thresholds, 0, 0) is Some,
    ensures
        ({
            let list = stages_of(nodes, leaves, counts, thresholds, 0, 0)->0;
            let start = stumps_before(list, m);
            let own = list[m as int].stumps;
            let count = usize::denoted(words_from(counts[m as int], 0)[0]);
            &&& list.len() == counts.len() || list.len() == thresholds.len()
            &&& list.len() <= counts.len() && list.len() <= thresholds.len()
            &&& list[m as int].threshold == words_from(thresholds[m as int], 0)
            &&& list[m as int].threshold.len() > 0
            &&& words_from(counts[m as int], 0).len() > 0 && count is Some
            &&& own.len() == count->0 || (own.len() < count->0 && (start + own.len() == nodes.len()
                || start + own.len() == leaves.len()))
            &&& start + own.len() <= nodes.len() && start + own.len() <= leaves.len()
            &&& forall|j: int|
                0 <= j < own.len() ==> stump_of(nodes[start + j], leaves[start + j]) == Some(
                    #[trigger] own[j],
                )
        }),
{
    lemma_stage(nodes, leaves, counts, thresholds, 0, 0, m);
    let list = words_from(counts[m as int], 0);
    assert(numbers_of::<usize>(list) is Some);
    assert(usize::denoted(list[0]) is Some);
}

/// Stages are made of the `internalNodes`, `leafValues`, `maxWeakCount` and `stageThreshold` of the
/// one part of the file, features of the `rect` of the other.
pub proof fn law_parts_are_read_by_their_tags(stages: Seq<char>, features: Seq<char>)
    ensures
        ({
            let read = stages_of(
                elements_of(stages, "internalNodes"@),
                elements_of(stages, "leafValues"@),
                elements_of(stages, "maxWeakCount"@),
                elements_of(stages, "stageThreshold"@),
                0,
                0,
            );
            let rects = features_of(elements_of(features, "rect"@));
            &&& cascade_of(stages, features) is Some <==> read is Some && rects is Some
            &&& cascade_of(stages, features) matches Some(cascade) ==> cascade.stages == read->0
                && cascade.features == rects->0
        }),
{
}

} // verus!
