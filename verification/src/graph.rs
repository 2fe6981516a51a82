//! The beat graph: for every beat, the musically similar beats that playback
//! may jump to.
//!
//! Similarity is measured elsewhere as a distance; this module sees each
//! distance only through its *order key*, an integer whose natural order is the
//! total order of the distances (smaller key, closer match). Candidates are
//! ranked by that order; the threshold compares distances as floating-point
//! numbers do (`distance_le`): the two zeros are equal, and a NaN is never
//! within it.

use vstd::prelude::*;

verus! {

/// Order key of the distance `0.0`: the threshold of a graph without any
/// candidate transition.
pub const ZERO_DISTANCE: u32 = 0x8000_0000;

/// A transition from a source beat to `destination`, with the order key of its
/// distance.
#[derive(Clone, Copy, Debug, PartialEq, Eq, Structural)]
pub struct Branch {
    pub destination: usize,
    pub distance: u32,
}

/// Parameters of graph construction.
#[derive(Clone, Copy, Debug)]
pub struct BranchConfig {
    /// Nearest candidates retained per source beat.
    pub maximum_branches: usize,
    /// Smallest index distance between a source and a destination.
    pub minimum_separation: usize,
    /// Fixed acceptance threshold (an order key); `None` selects one adaptively.
    pub threshold: Option<u32>,
}

impl Default for BranchConfig {
    fn default() -> (config: Self)
        ensures
            config.maximum_branches == 4,
            config.minimum_separation == 4,
            config.threshold is None,
    {
        BranchConfig { maximum_branches: 4, minimum_separation: 4, threshold: None }
    }
}

/// Accepted transitions for every beat, the acceptance threshold, and the last
/// source beat that can still jump backwards.
#[derive(Clone, Debug)]
pub struct BranchGraph {
    pub branches: Vec<Vec<Branch>>,
    pub threshold: u32,
    pub last_branch_point: usize,
}

/// The rows of a graph as plain sequences.
pub open spec fn rows(branches: Seq<Vec<Branch>>) -> Seq<Seq<Branch>> {
    branches.map_values(|row: Vec<Branch>| row@)
}

pub open spec fn index_gap(a: int, b: int) -> int {
    if a >= b { a - b } else { b - a }
}

/// Only beats far enough apart and at the same position within a four-beat
/// bar are compared.
pub open spec fn is_candidate_pair(config: BranchConfig, source: int, destination: int) -> bool {
    &&& index_gap(source, destination) >= config.minimum_separation
    &&& source % 4 == destination % 4
}

/// Number of destinations below `bound` that may be compared with `source`.
pub open spec fn candidate_count(config: BranchConfig, source: int, bound: int) -> nat
    decreases bound,
{
    if bound <= 0 {
        0
    } else {
        candidate_count(config, source, bound - 1) + if is_candidate_pair(
            config,
            source,
            bound - 1,
        ) {
            1nat
        } else {
            0nat
        }
    }
}

/// `a` is a closer match than `b`: a smaller distance key, and on equal keys
/// the smaller destination index.
pub open spec fn precedes(a: Branch, b: Branch) -> bool {
    a.distance < b.distance || (a.distance == b.distance && a.destination < b.destination)
}

pub open spec fn listed(row: Seq<Branch>, destination: int) -> bool {
    exists|i: int| 0 <= i < row.len() && row[i].destination == destination
}

pub open spec fn min_nat(a: nat, b: nat) -> nat {
    if a <= b { a } else { b }
}

/// `nearest` holds the `maximum_branches` closest candidates of `source` among
/// destinations below `bound`, closest first.
pub open spec fn nearest_below(
    distances: Seq<u32>,
    config: BranchConfig,
    source: int,
    bound: int,
    nearest: Seq<Branch>,
) -> bool {
    &&& nearest.len() == min_nat(
        config.maximum_branches as nat,
        candidate_count(config, source, bound),
    )
    &&& forall|i: int|
        0 <= i < nearest.len() ==> {
            &&& 0 <= (#[trigger] nearest[i]).destination < bound
            &&& is_candidate_pair(config, source, nearest[i].destination as int)
            &&& nearest[i].distance == distances[nearest[i].destination as int]
        }
    &&& forall|i: int, j: int|
        0 <= i < j < nearest.len() ==> precedes(#[trigger] nearest[i], #[trigger] nearest[j])
    &&& forall|d: int|
        0 <= d < bound && #[trigger] is_candidate_pair(config, source, d) && !listed(nearest, d)
            ==> forall|i: int|
            0 <= i < nearest.len() ==> precedes(
                #[trigger] nearest[i],
                Branch { destination: d as usize, distance: distances[d] },
            )
}

/// `nearest` holds the `maximum_branches` closest candidates of `source`,
/// closest first, where `distances[d]` is the key of the distance to beat `d`.
pub open spec fn is_nearest(
    distances: Seq<u32>,
    config: BranchConfig,
    source: int,
    nearest: Seq<Branch>,
) -> bool {
    nearest_below(distances, config, source, distances.len() as int, nearest)
}

fn closer(a: &Branch, b: &Branch) -> (r: bool)
    ensures
        r == precedes(*a, *b),
{
    a.distance < b.distance || (a.distance == b.distance && a.destination < b.destination)
}

fn candidate_pair(config: &BranchConfig, source: usize, destination: usize) -> (r: bool)
    ensures
        r == is_candidate_pair(*config, source as int, destination as int),
{
    let gap = if source >= destination {
        source - destination
    } else {
        destination - source
    };
    gap >= config.minimum_separation && source % 4 == destination % 4
}

/// The nearest candidates of `source`: destinations at least
/// `minimum_separation` beats away and at the same bar position, ordered by
/// distance (ties by index), keeping at most `maximum_branches`.
#[verifier::rlimit(40)]
pub fn nearest_candidates(distances: &Vec<u32>, config: &BranchConfig, source: usize) -> (nearest:
    Vec<Branch>)
    ensures
        is_nearest(distances@, *config, source as int, nearest@),
{
    let n = distances.len();
    let k = config.maximum_branches;
    let mut nearest: Vec<Branch> = Vec::new();
    let mut d: usize = 0;
    while d < n
        invariant
            n == distances@.len(),
            k == config.maximum_branches,
            d <= n,
            nearest_below(distances@, *config, source as int, d as int, nearest@),
            nearest@.len() < k ==> forall|e: int|
                0 <= e < d && #[trigger] is_candidate_pair(*config, source as int, e) ==> listed(
                    nearest@,
                    e,
                ),
        decreases n - d,
    {
        let ghost old_nearest = nearest@;
        let is_pair = candidate_pair(config, source, d);
        if is_pair {
            let item = Branch { destination: d, distance: distances[d] };
            let mut pos: usize = 0;
            while pos < nearest.len() && closer(&nearest[pos], &item)
                invariant
                    nearest@ == old_nearest,
                    pos <= nearest@.len(),
                    forall|i: int| 0 <= i < pos ==> precedes(#[trigger] nearest@[i], item),
                decreases nearest@.len() - pos,
            {
                pos = pos + 1;
            }
            // Every retained entry after `pos` is farther than the new item.
            assert forall|i: int| pos <= i < old_nearest.len() implies precedes(
                item,
                #[trigger] old_nearest[i],
            ) by {
                assert(!precedes(old_nearest[pos as int], item));
                assert(old_nearest[pos as int].destination < d);
                if i > pos {
                    assert(precedes(old_nearest[pos as int], old_nearest[i]));
                }
            }
            if nearest.len() < k {
                nearest.insert(pos, item);
                let ghost inserted = nearest@;
                proof {
                    old_nearest.insert_ensures(pos as int, item);
                    assert(inserted == old_nearest.insert(pos as int, item));
                    assert(listed(inserted, d as int)) by {
                        assert(inserted[pos as int].destination == d);
                    }
                    assert forall|e: int|
                        0 <= e < d + 1 && #[trigger] is_candidate_pair(
                            *config,
                            source as int,
                            e,
                        ) implies listed(inserted, e) by {
                        if e < d {
                            assert(listed(old_nearest, e));
                            let i = choose|i: int|
                                0 <= i < old_nearest.len() && old_nearest[i].destination == e;
                            if i < pos {
                                assert(inserted[i] == old_nearest[i]);
                            } else {
                                assert(inserted[i + 1] == old_nearest[i]);
                            }
                        }
                    }
                    assert forall|i: int, j: int|
                        0 <= i < j < inserted.len() implies precedes(
                        #[trigger] inserted[i],
                        #[trigger] inserted[j],
                    ) by {
                        if j < pos {
                        } else if j == pos {
                        } else if i < pos {
                            assert(inserted[j] == old_nearest[j - 1]);
                        } else if i == pos {
                            assert(inserted[j] == old_nearest[j - 1]);
                        } else {
                            assert(inserted[i] == old_nearest[i - 1]);
                            assert(inserted[j] == old_nearest[j - 1]);
                        }
                    }
                    assert forall|i: int| 0 <= i < inserted.len() implies {
                        &&& 0 <= (#[trigger] inserted[i]).destination < d + 1
                        &&& is_candidate_pair(
                            *config,
                            source as int,
                            inserted[i].destination as int,
                        )
                        &&& inserted[i].distance == distances@[inserted[i].destination as int]
                    } by {
                        if i > pos {
                            assert(inserted[i] == old_nearest[i - 1]);
                        }
                    }
                }
            } else if pos < k {
                nearest.insert(pos, item);
                nearest.truncate(k);
                let ghost kept = nearest@;
                proof {
                    let ins = old_nearest.insert(pos as int, item);
                    old_nearest.insert_ensures(pos as int, item);
                    assert(kept == ins.take(k as int));
                    let last = old_nearest[k - 1];
                    assert forall|i: int, j: int|
                        0 <= i < j < kept.len() implies precedes(
                        #[trigger] kept[i],
                        #[trigger] kept[j],
                    ) by {
                        assert(kept[i] == ins[i]);
                        assert(kept[j] == ins[j]);
                        if j < pos {
                        } else if j == pos {
                        } else if i < pos {
                            assert(ins[j] == old_nearest[j - 1]);
                        } else if i == pos {
                            assert(ins[j] == old_nearest[j - 1]);
                        } else {
                            assert(ins[i] == old_nearest[i - 1]);
                            assert(ins[j] == old_nearest[j - 1]);
                        }
                    }
                    assert forall|i: int| 0 <= i < kept.len() implies {
                        &&& 0 <= (#[trigger] kept[i]).destination < d + 1
                        &&& is_candidate_pair(*config, source as int, kept[i].destination as int)
                        &&& kept[i].distance == distances@[kept[i].destination as int]
                    } by {
                        assert(kept[i] == ins[i]);
                        if i > pos {
                            assert(ins[i] == old_nearest[i - 1]);
                        }
                    }
                    // Everything retained is closer than the entry that fell off.
                    assert forall|i: int| 0 <= i < kept.len() implies precedes(
                        #[trigger] kept[i],
                        last,
                    ) by {
                        assert(kept[i] == ins[i]);
                        if i < pos {
                        } else if i == pos {
                        } else {
                            assert(ins[i] == old_nearest[i - 1]);
                        }
                    }
                    assert forall|e: int|
                        0 <= e < d + 1 && #[trigger] is_candidate_pair(
                            *config,
                            source as int,
                            e,
                        ) && !listed(kept, e) implies forall|i: int|
                        0 <= i < kept.len() ==> precedes(
                            #[trigger] kept[i],
                            Branch { destination: e as usize, distance: distances@[e] },
                        ) by {
                        assert(e != d) by {
                            assert(kept[pos as int] == item);
                        }
                        if listed(old_nearest, e) {
                            let w = choose|w: int|
                                0 <= w < old_nearest.len() && old_nearest[w].destination == e;
                            if w < k - 1 {
                                if w < pos {
                                    assert(kept[w] == ins[w]);
                                } else {
                                    assert(kept[w + 1] == ins[w + 1]);
                                }
                            }
                            assert(w == k - 1);
                            assert(old_nearest[w] == Branch {
                                destination: e as usize,
                                distance: distances@[e],
                            });
                        } else {
                            assert forall|i: int| 0 <= i < kept.len() implies precedes(
                                #[trigger] kept[i],
                                Branch { destination: e as usize, distance: distances@[e] },
                            ) by {
                                assert(kept[i] == ins[i]);
                                assert(precedes(
                                    old_nearest[pos as int],
                                    Branch { destination: e as usize, distance: distances@[e] },
                                ));
                                if i > pos {
                                    assert(ins[i] == old_nearest[i - 1]);
                                }
                            }
                        }
                    }
                }
            } else {
                proof {
                    assert forall|e: int|
                        0 <= e < d + 1 && #[trigger] is_candidate_pair(
                            *config,
                            source as int,
                            e,
                        ) && !listed(old_nearest, e) implies forall|i: int|
                        0 <= i < old_nearest.len() ==> precedes(
                            #[trigger] old_nearest[i],
                            Branch { destination: e as usize, distance: distances@[e] },
                        ) by {
                        if e == d {
                            assert(Branch { destination: e as usize, distance: distances@[e] }
                                == item);
                        }
                    }
                }
            }
        }
        d = d + 1;
    }
    nearest
}

/// Number of entries of `values` strictly below `v`.
pub open spec fn count_below(values: Seq<u32>, v: u32) -> nat
    decreases values.len(),
{
    if values.len() == 0 {
        0
    } else {
        count_below(values.drop_last(), v) + if values.last() < v {
            1nat
        } else {
            0nat
        }
    }
}

/// Number of entries of `values` at most `v`.
pub open spec fn count_upto(values: Seq<u32>, v: u32) -> nat
    decreases values.len(),
{
    if values.len() == 0 {
        0
    } else {
        count_upto(values.drop_last(), v) + if values.last() <= v {
            1nat
        } else {
            0nat
        }
    }
}

/// `v` is the `rank`-th smallest entry of `values` (counting from one).
pub open spec fn is_order_statistic(values: Seq<u32>, rank: int, v: u32) -> bool {
    count_below(values, v) < rank <= count_upto(values, v)
}

/// The distance keys of the closest candidate of every source that has one,
/// in source order.
pub open spec fn leading_distances(candidates: Seq<Seq<Branch>>) -> Seq<u32>
    decreases candidates.len(),
{
    if candidates.len() == 0 {
        Seq::empty()
    } else {
        let earlier = leading_distances(candidates.drop_last());
        if candidates.last().len() > 0 {
            earlier.push(candidates.last()[0].distance)
        } else {
            earlier
        }
    }
}

pub open spec fn clamp_rank(target: int, len: int) -> int {
    if target < 1 {
        1
    } else if target > len {
        len
    } else {
        target
    }
}

/// The adaptive threshold: with `target` sources meant to keep a branch, the
/// `target`-th smallest closest-candidate distance (the rank clamped to the
/// sources that have a candidate), or `ZERO_DISTANCE` when no source has one.
pub open spec fn is_adaptive_threshold(
    candidates: Seq<Seq<Branch>>,
    target: int,
    threshold: u32,
) -> bool {
    let leading = leading_distances(candidates);
    if leading.len() == 0 {
        threshold == ZERO_DISTANCE
    } else {
        is_order_statistic(leading, clamp_rank(target, leading.len() as int), threshold)
    }
}

proof fn lemma_counts_bounded(values: Seq<u32>, v: u32)
    ensures
        count_below(values, v) <= count_upto(values, v) <= values.len(),
    decreases values.len(),
{
    if values.len() > 0 {
        lemma_counts_bounded(values.drop_last(), v);
    }
}

proof fn lemma_counts_insert(values: Seq<u32>, pos: int, x: u32, v: u32)
    requires
        0 <= pos <= values.len(),
    ensures
        count_below(values.insert(pos, x), v) == count_below(values, v) + if x < v {
            1nat
        } else {
            0nat
        },
        count_upto(values.insert(pos, x), v) == count_upto(values, v) + if x <= v {
            1nat
        } else {
            0nat
        },
    decreases values.len(),
{
    let ins = values.insert(pos, x);
    values.insert_ensures(pos, x);
    if pos == values.len() {
        assert(ins.drop_last() =~= values);
    } else {
        let shorter = values.drop_last();
        lemma_counts_insert(shorter, pos, x, v);
        shorter.insert_ensures(pos, x);
        assert(ins.drop_last() =~= shorter.insert(pos, x));
        assert(ins.last() == values.last());
    }
}

proof fn lemma_counts_push(values: Seq<u32>, x: u32, v: u32)
    ensures
        count_below(values.push(x), v) == count_below(values, v) + if x < v {
            1nat
        } else {
            0nat
        },
        count_upto(values.push(x), v) == count_upto(values, v) + if x <= v {
            1nat
        } else {
            0nat
        },
{
    assert(values.push(x).drop_last() =~= values);
}

proof fn lemma_all_upto(values: Seq<u32>, v: u32)
    requires
        forall|j: int| 0 <= j < values.len() ==> values[j] <= v,
    ensures
        count_upto(values, v) == values.len(),
    decreases values.len(),
{
    if values.len() > 0 {
        lemma_all_upto(values.drop_last(), v);
    }
}

proof fn lemma_sorted_rank(values: Seq<u32>, i: int)
    requires
        0 <= i < values.len(),
        forall|a: int, b: int| 0 <= a <= b < values.len() ==> values[a] <= values[b],
    ensures
        is_order_statistic(values, i + 1, values[i]),
    decreases values.len(),
{
    let shorter = values.drop_last();
    if i == values.len() - 1 {
        lemma_counts_bounded(shorter, values[i]);
        lemma_all_upto(shorter, values[i]);
    } else {
        lemma_sorted_rank(shorter, i);
    }
}

proof fn lemma_order_statistic_present(values: Seq<u32>, rank: int, v: u32)
    requires
        is_order_statistic(values, rank, v),
    ensures
        values.contains(v),
    decreases values.len(),
{
    let shorter = values.drop_last();
    if values.len() > 0 && values.last() == v {
        assert(values[values.len() - 1] == v);
    } else if values.len() > 0 {
        let lower: int = if values.last() < v {
            1
        } else {
            0
        };
        lemma_order_statistic_present(shorter, rank - lower, v);
        let j = choose|j: int| 0 <= j < shorter.len() && shorter[j] == v;
        assert(values[j] == v);
    }
}

/// The distance key of the closest candidate of every source that has one.
fn collect_leading(candidates: &Vec<Vec<Branch>>) -> (leading: Vec<u32>)
    ensures
        leading@ == leading_distances(rows(candidates@)),
{
    let mut leading: Vec<u32> = Vec::new();
    let mut s: usize = 0;
    while s < candidates.len()
        invariant
            s <= candidates@.len(),
            leading@ == leading_distances(rows(candidates@).take(s as int)),
        decreases candidates@.len() - s,
    {
        let ghost all = rows(candidates@);
        proof {
            assert(all.take(s + 1).drop_last() =~= all.take(s as int));
            assert(all.take(s + 1).last() == candidates@[s as int]@);
        }
        if candidates[s].len() > 0 {
            leading.push(candidates[s][0].distance);
        }
        s = s + 1;
    }
    proof {
        assert(rows(candidates@).take(s as int) =~= rows(candidates@));
    }
    leading
}

/// Picks the acceptance threshold so that roughly `target` sources keep a
/// branch: the `target`-th smallest closest-candidate distance.
pub fn adaptive_threshold(candidates: &Vec<Vec<Branch>>, target: usize) -> (threshold: u32)
    ensures
        is_adaptive_threshold(rows(candidates@), target as int, threshold),
        leading_distances(rows(candidates@)).len() > 0 ==> leading_distances(
            rows(candidates@),
        ).contains(threshold),
{
    let leading = collect_leading(candidates);
    if leading.len() == 0 {
        return ZERO_DISTANCE;
    }
    // Insertion sort, tracking the rank counts of the sorted prefix.
    let mut sorted: Vec<u32> = Vec::new();
    let mut i: usize = 0;
    while i < leading.len()
        invariant
            i <= leading@.len(),
            forall|a: int, b: int| 0 <= a <= b < sorted@.len() ==> sorted@[a] <= sorted@[b],
            sorted@.len() == i,
            forall|v: u32|
                count_below(#[trigger] sorted@, v) == count_below(leading@.take(i as int), v)
                    && count_upto(sorted@, v) == count_upto(leading@.take(i as int), v),
        decreases leading@.len() - i,
    {
        let x = leading[i];
        let mut pos: usize = 0;
        while pos < sorted.len() && sorted[pos] <= x
            invariant
                pos <= sorted@.len(),
                forall|a: int| 0 <= a < pos ==> sorted@[a] <= x,
            decreases sorted@.len() - pos,
        {
            pos = pos + 1;
        }
        let ghost before = sorted@;
        sorted.insert(pos, x);
        proof {
            before.insert_ensures(pos as int, x);
            assert(sorted@ == before.insert(pos as int, x));
            assert forall|a: int, b: int| 0 <= a <= b < sorted@.len() implies sorted@[a]
                <= sorted@[b] by {
                if pos < before.len() {
                    assert(x < before[pos as int]);
                }
                if a < pos && b > pos {
                    assert(sorted@[b] == before[b - 1]);
                } else if a > pos {
                    assert(sorted@[a] == before[a - 1]);
                    assert(sorted@[b] == before[b - 1]);
                } else if a == pos && b > pos {
                    assert(sorted@[b] == before[b - 1]);
                }
            }
            assert(leading@.take(i + 1) =~= leading@.take(i as int).push(x));
            assert forall|v: u32|
                count_below(#[trigger] sorted@, v) == count_below(leading@.take(i + 1), v)
                    && count_upto(sorted@, v) == count_upto(leading@.take(i + 1), v) by {
                lemma_counts_insert(before, pos as int, x, v);
                lemma_counts_push(leading@.take(i as int), x, v);
            }
        }
        i = i + 1;
    }
    let len = leading.len();
    let rank = if target < 1 {
        1
    } else if target > len {
        len
    } else {
        target
    };
    let threshold = sorted[rank - 1];
    proof {
        assert(leading@.take(len as int) =~= leading@);
        lemma_sorted_rank(sorted@, rank - 1);
        assert(count_below(sorted@, threshold) == count_below(leading@, threshold));
        lemma_order_statistic_present(leading@, rank as int, threshold);
    }
    threshold
}

/// Entry `i` of source `s` jumps backwards.
pub open spec fn is_backward_entry(g: Seq<Seq<Branch>>, s: int, i: int) -> bool {
    0 <= s < g.len() && 0 <= i < g[s].len() && g[s][i].destination < s
}

/// Backward entry `(s2, i2)` is at least as good an escape as `(s1, i1)`:
/// it spans more beats, or as many with a smaller distance, or ties and comes
/// later in source-then-entry order.
pub open spec fn escape_at_least(g: Seq<Seq<Branch>>, s1: int, i1: int, s2: int, i2: int) -> bool {
    let span1 = s1 - g[s1][i1].destination;
    let span2 = s2 - g[s2][i2].destination;
    let key1 = g[s1][i1].distance;
    let key2 = g[s2][i2].distance;
    span1 < span2 || (span1 == span2 && (key1 > key2 || (key1 == key2 && (s1 < s2 || (s1 == s2
        && i1 <= i2)))))
}

/// `(s, i)` is the longest backward candidate: the best escape of all.
pub open spec fn is_longest_escape(candidates: Seq<Seq<Branch>>, s: int, i: int) -> bool {
    &&& is_backward_entry(candidates, s, i)
    &&& forall|s2: int, i2: int|
        #[trigger] is_backward_entry(candidates, s2, i2) ==> escape_at_least(
            candidates,
            s2,
            i2,
            s,
            i,
        )
}

/// `after` is `before` with the longest backward candidate guaranteed to be
/// present: it is appended to its source unless that source already has a
/// branch to the same destination. Without backward candidates nothing changes.
pub open spec fn keeps_longest_escape(
    candidates: Seq<Seq<Branch>>,
    before: Seq<Seq<Branch>>,
    after: Seq<Seq<Branch>>,
) -> bool {
    if exists|s: int, i: int| is_backward_entry(candidates, s, i) {
        exists|s: int, i: int|
            #[trigger] is_longest_escape(candidates, s, i) && after == if listed(
                before[s],
                candidates[s][i].destination as int,
            ) {
                before
            } else {
                before.update(s, before[s].push(candidates[s][i]))
            }
    } else {
        after == before
    }
}

fn row_lists(row: &Vec<Branch>, destination: usize) -> (r: bool)
    ensures
        r == listed(row@, destination as int),
{
    let mut j: usize = 0;
    while j < row.len()
        invariant
            j <= row@.len(),
            forall|a: int| 0 <= a < j ==> row@[a].destination != destination,
        decreases row@.len() - j,
    {
        if row[j].destination == destination {
            return true;
        }
        j = j + 1;
    }
    false
}

/// Makes sure the graph keeps its longest backward escape: the backward
/// candidate spanning the most beats (on ties, the closer one) is added to
/// its source if that source has no branch to the same destination yet.
pub fn ensure_long_backward_branch(candidates: &Vec<Vec<Branch>>, branches: &mut Vec<Vec<Branch>>)
    requires
        old(branches)@.len() == candidates@.len(),
    ensures
        keeps_longest_escape(rows(candidates@), rows(old(branches)@), rows(final(branches)@)),
{
    let ghost g = rows(candidates@);
    let mut best: Option<(usize, usize)> = None;
    let mut s: usize = 0;
    while s < candidates.len()
        invariant
            g == rows(candidates@),
            s <= candidates@.len(),
            branches@ == old(branches)@,
            match best {
                None => forall|s2: int, i2: int|
                    0 <= s2 < s ==> !#[trigger] is_backward_entry(g, s2, i2),
                Some((bs, bi)) => {
                    &&& bs < s
                    &&& is_backward_entry(g, bs as int, bi as int)
                    &&& forall|s2: int, i2: int|
                        0 <= s2 < s && #[trigger] is_backward_entry(g, s2, i2) ==> escape_at_least(
                            g,
                            s2,
                            i2,
                            bs as int,
                            bi as int,
                        )
                },
            },
        decreases candidates@.len() - s,
    {
        let row = &candidates[s];
        let mut i: usize = 0;
        while i < row.len()
            invariant
                g == rows(candidates@),
                s < candidates@.len(),
                row@ == g[s as int],
                i <= row@.len(),
                match best {
                    None => forall|s2: int, i2: int|
                        (0 <= s2 < s || (s2 == s && i2 < i)) ==> !#[trigger] is_backward_entry(
                            g,
                            s2,
                            i2,
                        ),
                    Some((bs, bi)) => {
                        &&& bs <= s
                        &&& (bs == s ==> bi < i)
                        &&& is_backward_entry(g, bs as int, bi as int)
                        &&& forall|s2: int, i2: int|
                            (0 <= s2 < s || (s2 == s && 0 <= i2 < i))
                                && #[trigger] is_backward_entry(g, s2, i2) ==> escape_at_least(
                                g,
                                s2,
                                i2,
                                bs as int,
                                bi as int,
                            )
                    },
                },
            decreases row@.len() - i,
        {
            let item = row[i];
            if item.destination < s {
                let span = s - item.destination;
                let replace = match best {
                    None => true,
                    Some((bs, bi)) => {
                        let current = candidates[bs][bi];
                        let best_span = bs - current.destination;
                        span > best_span || (span == best_span && item.distance
                            <= current.distance)
                    },
                };
                if replace {
                    best = Some((s, i));
                }
            }
            i = i + 1;
        }
        s = s + 1;
    }
    if let Some((bs, bi)) = best {
        let item = candidates[bs][bi];
        proof {
            assert(is_longest_escape(g, bs as int, bi as int));
        }
        if !row_lists(&branches[bs], item.destination) {
            let mut row = branches[bs].clone();
            row.push(item);
            branches.set(bs, row);
            proof {
                assert(rows(branches@) =~= rows(old(branches)@).update(
                    bs as int,
                    rows(old(branches)@)[bs as int].push(item),
                ));
            }
        } else {
            assert(rows(branches@) == rows(old(branches)@));
        }
    } else {
        assert(!exists|s2: int, i2: int| is_backward_entry(g, s2, i2));
    }
}

/// Source `s` has a branch to an earlier beat.
pub open spec fn has_backward(g: Seq<Seq<Branch>>, s: int) -> bool {
    exists|j: int| 0 <= j < g[s].len() && g[s][j].destination < s
}

/// `point` is the last source with a backward branch, or 0 when there is none.
pub open spec fn is_last_branch_point(g: Seq<Seq<Branch>>, point: int) -> bool {
    if exists|s: int| 0 <= s < g.len() && #[trigger] has_backward(g, s) {
        &&& 0 <= point < g.len()
        &&& has_backward(g, point)
        &&& forall|s: int| point < s < g.len() ==> !#[trigger] has_backward(g, s)
    } else {
        point == 0
    }
}

fn row_has_backward(row: &Vec<Branch>, source: usize) -> (r: bool)
    ensures
        r == exists|j: int| 0 <= j < row@.len() && row@[j].destination < source,
{
    let mut j: usize = 0;
    while j < row.len()
        invariant
            j <= row@.len(),
            forall|a: int| 0 <= a < j ==> row@[a].destination >= source,
        decreases row@.len() - j,
    {
        if row[j].destination < source {
            return true;
        }
        j = j + 1;
    }
    false
}

/// The last source with a backward branch, or 0.
pub fn best_last_branch(branches: &Vec<Vec<Branch>>) -> (point: usize)
    ensures
        is_last_branch_point(rows(branches@), point as int),
{
    let ghost g = rows(branches@);
    let mut s = branches.len();
    while s > 0
        invariant
            g == rows(branches@),
            s <= branches@.len(),
            forall|t: int| s <= t < g.len() ==> !#[trigger] has_backward(g, t),
        decreases s,
    {
        s = s - 1;
        if row_has_backward(&branches[s], s) {
            proof {
                assert(g[s as int] == branches@[s as int]@);
                assert(has_backward(g, s as int));
            }
            return s;
        }
        assert(g[s as int] == branches@[s as int]@);
    }
    0
}

/// The key is that of a NaN distance: below the key of negative infinity or
/// above that of positive infinity.
pub open spec fn is_nan_key(key: u32) -> bool {
    key < 0x007f_ffff || key > 0xff80_0000
}

/// The key is that of a zero distance, negative or positive.
pub open spec fn is_zero_key(key: u32) -> bool {
    key == 0x7fff_ffff || key == 0x8000_0000
}

/// The distance with key `a` is at most the one with key `b`, compared as
/// floating-point numbers: never for a NaN, and the two zeros are equal.
pub open spec fn distance_le(a: u32, b: u32) -> bool {
    !is_nan_key(a) && !is_nan_key(b) && (a <= b || (is_zero_key(a) && is_zero_key(b)))
}

/// The distance with key `a` exceeds the one with key `b`, compared as
/// floating-point numbers: never for a NaN, and the two zeros are equal.
pub open spec fn distance_gt(a: u32, b: u32) -> bool {
    !is_nan_key(a) && !is_nan_key(b) && a > b && !(is_zero_key(a) && is_zero_key(b))
}

/// Thresholds compare as `f32` does: a distance is within any threshold at
/// least as large, itself included (so the candidate whose distance sets the
/// adaptive threshold is kept), exceeds any threshold below it, and of two
/// distances that are not NaN exactly one is within the other or beyond it.
pub proof fn lemma_threshold_compares_as_numbers(a: u32, b: u32)
    ensures
        !is_nan_key(a) && !is_nan_key(b) && a <= b ==> distance_le(a, b),
        !is_nan_key(a) ==> distance_le(a, a) && !distance_gt(a, a),
        !is_nan_key(a) && !is_nan_key(b) && a > b && !(is_zero_key(a) && is_zero_key(b))
            ==> distance_gt(a, b) && !distance_le(a, b),
        !is_nan_key(a) && !is_nan_key(b) ==> (distance_le(a, b) != distance_gt(a, b)),
        is_nan_key(a) || is_nan_key(b) ==> !distance_le(a, b) && !distance_gt(a, b),
{
}

/// Whether the distance with key `a` is at most the one with key `b`, as a
/// floating-point comparison.
pub fn distance_at_most(a: u32, b: u32) -> (at_most: bool)
    ensures
        at_most == distance_le(a, b),
{
    let nan = a < 0x007f_ffff || a > 0xff80_0000 || b < 0x007f_ffff || b > 0xff80_0000;
    let zeros = (a == 0x7fff_ffff || a == 0x8000_0000) && (b == 0x7fff_ffff || b == 0x8000_0000);
    !nan && (a <= b || zeros)
}

/// Whether the distance with key `a` exceeds the one with key `b`, as a
/// floating-point comparison.
pub fn distance_exceeds(a: u32, b: u32) -> (exceeds: bool)
    ensures
        exceeds == distance_gt(a, b),
{
    let nan = a < 0x007f_ffff || a > 0xff80_0000 || b < 0x007f_ffff || b > 0xff80_0000;
    let zeros = (a == 0x7fff_ffff || a == 0x8000_0000) && (b == 0x7fff_ffff || b == 0x8000_0000);
    !nan && a > b && !zeros
}

/// The entries of `row` that jump to beats before `bound`, in order.
pub open spec fn keep_below(row: Seq<Branch>, bound: int) -> Seq<Branch> {
    row.filter(|b: Branch| b.destination < bound)
}

/// The entries of `row` whose distance key is at most `threshold`, in order.
pub open spec fn keep_within(row: Seq<Branch>, threshold: u32) -> Seq<Branch> {
    row.filter(|b: Branch| distance_le(b.distance, threshold))
}

/// Rows before `point` keep only the branches to beats before `point`; the
/// other rows are unchanged.
pub open spec fn without_end_traps(g: Seq<Seq<Branch>>, point: int) -> Seq<Seq<Branch>> {
    Seq::new(
        g.len(),
        |s: int|
            if s < point {
                keep_below(g[s], point)
            } else {
                g[s]
            },
    )
}

fn retain_rows_below(row: &Vec<Branch>, bound: usize) -> (kept: Vec<Branch>)
    ensures
        kept@ == keep_below(row@, bound as int),
{
    let mut kept: Vec<Branch> = Vec::new();
    let mut j: usize = 0;
    while j < row.len()
        invariant
            j <= row@.len(),
            kept@ == keep_below(row@.take(j as int), bound as int),
        decreases row@.len() - j,
    {
        if row[j].destination < bound {
            kept.push(row[j]);
        }
        proof {
            let prefix = row@.take(j + 1);
            assert(prefix.drop_last() =~= row@.take(j as int));
            assert(prefix.last() == row@[j as int]);
            reveal_with_fuel(Seq::filter, 1);
        }
        j = j + 1;
    }
    assert(row@.take(j as int) =~= row@);
    kept
}

/// Branches that would jump past the last branch point can strand playback in
/// the outro; sources before it keep only branches to beats before it.
pub fn remove_end_traps(branches: &mut Vec<Vec<Branch>>, last_branch_point: usize)
    ensures
        rows(final(branches)@) == without_end_traps(
            rows(old(branches)@),
            last_branch_point as int,
        ),
{
    let ghost g = rows(old(branches)@);
    let mut s: usize = 0;
    while s < branches.len() && s < last_branch_point
        invariant
            branches@.len() == g.len(),
            s <= g.len(),
            s <= last_branch_point,
            forall|t: int|
                0 <= t < g.len() ==> #[trigger] branches@[t]@ == if t < s {
                    keep_below(g[t], last_branch_point as int)
                } else {
                    g[t]
                },
        decreases g.len() - s,
    {
        let kept = retain_rows_below(&branches[s], last_branch_point);
        branches.set(s, kept);
        s = s + 1;
    }
    let ghost expected = without_end_traps(g, last_branch_point as int);
    assert forall|t: int| 0 <= t < g.len() implies #[trigger] rows(branches@)[t] == expected[t] by {
        assert(branches@[t]@ == rows(branches@)[t]);
        assert(!(s < g.len() && s < last_branch_point));
        if t < last_branch_point {
            assert(t < s);
            assert(expected[t] == keep_below(g[t], last_branch_point as int));
            assert(branches@[t]@ == keep_below(g[t], last_branch_point as int));
        } else {
            assert(expected[t] == g[t]);
            assert(branches@[t]@ == g[t]);
        }
        assert(branches@[t]@ == expected[t]);
    }
    assert(rows(branches@) =~= expected);
}

/// Every row keeps the branches whose distance key is at most `threshold`.
pub open spec fn within_threshold(g: Seq<Seq<Branch>>, threshold: u32) -> Seq<Seq<Branch>> {
    g.map_values(|row: Seq<Branch>| keep_within(row, threshold))
}

fn retain_within(row: &Vec<Branch>, threshold: u32) -> (kept: Vec<Branch>)
    ensures
        kept@ == keep_within(row@, threshold),
{
    let mut kept: Vec<Branch> = Vec::new();
    let mut j: usize = 0;
    while j < row.len()
        invariant
            j <= row@.len(),
            kept@ == keep_within(row@.take(j as int), threshold),
        decreases row@.len() - j,
    {
        if distance_at_most(row[j].distance, threshold) {
            kept.push(row[j]);
        }
        proof {
            let prefix = row@.take(j + 1);
            assert(prefix.drop_last() =~= row@.take(j as int));
            assert(prefix.last() == row@[j as int]);
            reveal_with_fuel(Seq::filter, 1);
        }
        j = j + 1;
    }
    assert(row@.take(j as int) =~= row@);
    kept
}

fn accept_within(candidates: &Vec<Vec<Branch>>, threshold: u32) -> (branches: Vec<Vec<Branch>>)
    ensures
        rows(branches@) == within_threshold(rows(candidates@), threshold),
{
    let mut branches: Vec<Vec<Branch>> = Vec::new();
    let mut s: usize = 0;
    while s < candidates.len()
        invariant
            s <= candidates@.len(),
            branches@.len() == s,
            forall|t: int|
                0 <= t < s ==> #[trigger] branches@[t]@ == keep_within(candidates@[t]@, threshold),
        decreases candidates@.len() - s,
    {
        branches.push(retain_within(&candidates[s], threshold));
        s = s + 1;
    }
    assert(rows(branches@) =~= within_threshold(rows(candidates@), threshold));
    branches
}

/// Total number of branches over all rows.
pub open spec fn total_branches(g: Seq<Seq<Branch>>) -> nat
    decreases g.len(),
{
    if g.len() == 0 {
        0
    } else {
        total_branches(g.drop_last()) + g.last().len()
    }
}

impl BranchGraph {
    /// Total number of accepted transitions.
    pub fn branch_count(&self) -> (count: usize)
        requires
            total_branches(rows(self.branches@)) <= usize::MAX,
        ensures
            count == total_branches(rows(self.branches@)),
    {
        let ghost g = rows(self.branches@);
        let mut count: usize = 0;
        let mut s: usize = 0;
        while s < self.branches.len()
            invariant
                g == rows(self.branches@),
                s <= g.len(),
                count == total_branches(g.take(s as int)),
                total_branches(g) <= usize::MAX,
            decreases g.len() - s,
        {
            proof {
                assert(g.take(s + 1).drop_last() =~= g.take(s as int));
                lemma_total_prefix(g, s as int + 1);
            }
            count = count + self.branches[s].len();
            s = s + 1;
        }
        assert(g.take(s as int) =~= g);
        count
    }
}

proof fn lemma_total_prefix(g: Seq<Seq<Branch>>, n: int)
    requires
        0 <= n <= g.len(),
    ensures
        total_branches(g.take(n)) <= total_branches(g),
    decreases g.len() - n,
{
    if n < g.len() {
        lemma_total_prefix(g, n + 1);
        assert(g.take(n + 1).drop_last() =~= g.take(n));
        assert(total_branches(g.take(n + 1)) == total_branches(g.take(n)) + g[n].len());
    } else {
        assert(g.take(n) =~= g);
    }
}

/// The distance keys as plain rows: `d[s][t]` is the key of the distance
/// between beats `s` and `t`.
pub open spec fn distance_rows(distances: Seq<Vec<u32>>) -> Seq<Seq<u32>> {
    distances.map_values(|row: Vec<u32>| row@)
}

/// A square table of distance keys, one row and one column per beat.
pub open spec fn is_square(distances: Seq<Seq<u32>>) -> bool {
    forall|s: int| 0 <= s < distances.len() ==> #[trigger] distances[s].len() == distances.len()
}

/// `candidates[s]` is the nearest-candidate list of every beat `s`.
pub open spec fn are_nearest_rows(
    distances: Seq<Seq<u32>>,
    config: BranchConfig,
    candidates: Seq<Seq<Branch>>,
) -> bool {
    &&& candidates.len() == distances.len()
    &&& forall|s: int|
        0 <= s < candidates.len() ==> is_nearest(
            #[trigger] distances[s],
            config,
            s,
            candidates[s],
        )
}

/// The configured threshold, or else the adaptive one.
pub open spec fn is_chosen_threshold(
    config: BranchConfig,
    candidates: Seq<Seq<Branch>>,
    target: int,
    threshold: u32,
) -> bool {
    match config.threshold {
        Some(fixed) => threshold == fixed,
        None => is_adaptive_threshold(candidates, target, threshold),
    }
}

/// A graph built from the nearest candidates: those within the threshold, plus
/// the longest backward escape, with the end traps removed after the last
/// backward source.
pub open spec fn is_built_from(
    distances: Seq<Seq<u32>>,
    config: BranchConfig,
    target: int,
    branches: Seq<Seq<Branch>>,
    threshold: u32,
    last_branch_point: int,
) -> bool {
    if distances.len() == 0 {
        branches.len() == 0 && threshold == ZERO_DISTANCE && last_branch_point == 0
    } else {
        exists|candidates: Seq<Seq<Branch>>, joined: Seq<Seq<Branch>>|
            #[trigger] are_nearest_rows(distances, config, candidates) && #[trigger]
                keeps_longest_escape(candidates, within_threshold(candidates, threshold), joined)
                && is_chosen_threshold(config, candidates, target, threshold)
                && is_last_branch_point(joined, last_branch_point) && branches
                == without_end_traps(joined, last_branch_point)
    }
}

/// Every branch of `g` is a comparable pair of beats carrying the key of
/// its distance.
pub open spec fn branches_are_candidates(
    distances: Seq<Seq<u32>>,
    config: BranchConfig,
    g: Seq<Seq<Branch>>,
) -> bool {
    forall|s: int, j: int|
        0 <= s < g.len() && 0 <= j < g[s].len() ==> {
            &&& 0 <= (#[trigger] g[s][j]).destination < g.len()
            &&& is_candidate_pair(config, s, g[s][j].destination as int)
            &&& g[s][j].distance == distances[s][g[s][j].destination as int]
        }
}

/// No source before the last branch point has a branch to it or beyond it.
pub open spec fn has_no_end_traps(g: Seq<Seq<Branch>>, point: int) -> bool {
    forall|s: int, j: int|
        0 <= s < point && s < g.len() && 0 <= j < g[s].len() ==> (#[trigger] g[s][j]).destination
            < point
}

proof fn lemma_filter_all<A>(row: Seq<A>, keep: spec_fn(A) -> bool, holds: spec_fn(A) -> bool)
    requires
        forall|i: int| 0 <= i < row.len() ==> holds(#[trigger] row[i]),
    ensures
        forall|i: int| 0 <= i < row.filter(keep).len() ==> holds(#[trigger] row.filter(keep)[i]),
        row.filter(keep).len() <= row.len(),
    decreases row.len(),
{
    reveal_with_fuel(Seq::filter, 1);
    if row.len() > 0 {
        lemma_filter_all(row.drop_last(), keep, holds);
        let rest = row.drop_last().filter(keep);
        if keep(row.last()) {
            assert forall|i: int| 0 <= i < row.filter(keep).len() implies holds(
                #[trigger] row.filter(keep)[i],
            ) by {
                if i < rest.len() {
                    assert(row.filter(keep)[i] == rest[i]);
                }
            }
        }
    }
}

proof fn lemma_filter_keeps_matches<A>(row: Seq<A>, keep: spec_fn(A) -> bool)
    ensures
        forall|i: int| 0 <= i < row.filter(keep).len() ==> keep(#[trigger] row.filter(keep)[i]),
    decreases row.len(),
{
    reveal_with_fuel(Seq::filter, 1);
    if row.len() > 0 {
        lemma_filter_keeps_matches(row.drop_last(), keep);
        let rest = row.drop_last().filter(keep);
        assert forall|i: int| 0 <= i < row.filter(keep).len() implies keep(
            #[trigger] row.filter(keep)[i],
        ) by {
            if i < rest.len() {
                assert(row.filter(keep)[i] == rest[i]);
            }
        }
    }
}

/// The longest backward escape survives: when some nearest-candidate list
/// holds a backward entry, the finished graph keeps a backward branch, at its
/// last branch point.
pub proof fn lemma_escape_survives(
    candidates: Seq<Seq<Branch>>,
    threshold: u32,
    joined: Seq<Seq<Branch>>,
    point: int,
)
    requires
        keeps_longest_escape(candidates, within_threshold(candidates, threshold), joined),
        is_last_branch_point(joined, point),
        exists|s: int, i: int| is_backward_entry(candidates, s, i),
    ensures
        has_backward(without_end_traps(joined, point), point),
        0 <= point < joined.len(),
{
    let before = within_threshold(candidates, threshold);
    let (s, i) = choose|s: int, i: int|
        #[trigger] is_longest_escape(candidates, s, i) && joined == if listed(
            before[s],
            candidates[s][i].destination as int,
        ) {
            before
        } else {
            before.update(s, before[s].push(candidates[s][i]))
        };
    let d = candidates[s][i].destination as int;
    if listed(before[s], d) {
        let j = choose|j: int| 0 <= j < before[s].len() && before[s][j].destination == d;
        assert(joined[s][j].destination < s);
    } else {
        assert(joined[s][before[s].len() as int] == candidates[s][i]);
    }
    assert(has_backward(joined, s));
    let fin = without_end_traps(joined, point);
    assert(fin[point] == joined[point]);
}

/// Graph properties that hold for every construction result.
proof fn lemma_built_shape(
    distances: Seq<Seq<u32>>,
    config: BranchConfig,
    candidates: Seq<Seq<Branch>>,
    threshold: u32,
    joined: Seq<Seq<Branch>>,
    point: int,
)
    requires
        is_square(distances),
        are_nearest_rows(distances, config, candidates),
        keeps_longest_escape(candidates, within_threshold(candidates, threshold), joined),
        is_last_branch_point(joined, point),
    ensures
        ({
            let fin = without_end_traps(joined, point);
            &&& fin.len() == distances.len()
            &&& branches_are_candidates(distances, config, fin)
            &&& has_no_end_traps(fin, point)
            &&& is_last_branch_point(fin, point)
            &&& forall|s: int|
                0 <= s < fin.len() ==> #[trigger] fin[s].len() <= config.maximum_branches + 1
        }),
{
    let n = distances.len() as int;
    let before = within_threshold(candidates, threshold);
    let fin = without_end_traps(joined, point);
    let good = |s: int|
        (|b: Branch|
            0 <= b.destination < n && is_candidate_pair(config, s, b.destination as int)
                && b.distance == distances[s][b.destination as int]);
    // Candidate rows hold only good entries, and so do their filtered rows.
    assert forall|s: int| 0 <= s < n implies forall|j: int|
        0 <= j < before[s].len() ==> (#[trigger] good(s))(before[s][j]) by {
        assert(is_nearest(distances[s], config, s, candidates[s]));
        assert forall|j: int| 0 <= j < candidates[s].len() implies (#[trigger] good(s))(
            candidates[s][j],
        ) by {
            assert(distances[s].len() == n);
            assert(0 <= candidates[s][j].destination < n);
        }
        lemma_filter_all(candidates[s], |b: Branch| distance_le(b.distance, threshold), good(s));
        assert(before[s] == keep_within(candidates[s], threshold));
    }
    assert forall|s: int| 0 <= s < n implies #[trigger] before[s].len()
        <= config.maximum_branches by {
        lemma_filter_all(candidates[s], |b: Branch| distance_le(b.distance, threshold), good(s));
        assert(before[s] == keep_within(candidates[s], threshold));
    }
    // The escape entry is good as well.
    assert(joined.len() == n);
    assert forall|s: int| 0 <= s < n implies forall|j: int|
        0 <= j < joined[s].len() ==> (#[trigger] good(s))(joined[s][j]) && joined[s].len()
            <= config.maximum_branches + 1 by {
        if exists|s2: int, i2: int| is_backward_entry(candidates, s2, i2) {
            let (bs, bi) = choose|bs: int, bi: int|
                #[trigger] is_longest_escape(candidates, bs, bi) && joined == if listed(
                    before[bs],
                    candidates[bs][bi].destination as int,
                ) {
                    before
                } else {
                    before.update(bs, before[bs].push(candidates[bs][bi]))
                };
            if s == bs && !listed(before[bs], candidates[bs][bi].destination as int) {
                assert(is_nearest(distances[bs], config, bs, candidates[bs]));
                assert forall|j: int| 0 <= j < joined[s].len() implies (#[trigger] good(s))(
                    joined[s][j],
                ) by {
                    if j < before[s].len() {
                        assert(joined[s][j] == before[s][j]);
                    }
                }
            }
        }
    }
    // Removing end traps only drops entries.
    assert forall|s: int| 0 <= s < n implies forall|j: int|
        0 <= j < fin[s].len() ==> (#[trigger] good(s))(fin[s][j]) && fin[s].len()
            <= config.maximum_branches + 1 && (s < point ==> fin[s][j].destination < point) by {
        if s < point {
            lemma_filter_all(joined[s], |b: Branch| b.destination < point, good(s));
            lemma_filter_keeps_matches(joined[s], |b: Branch| b.destination < point);
            assert(fin[s] == keep_below(joined[s], point));
        }
    }
    assert forall|s: int, j: int| 0 <= s < fin.len() && 0 <= j < fin[s].len() implies {
        &&& 0 <= (#[trigger] fin[s][j]).destination < fin.len()
        &&& is_candidate_pair(config, s, fin[s][j].destination as int)
        &&& fin[s][j].distance == distances[s][fin[s][j].destination as int]
    } by {
        assert(good(s)(fin[s][j]));
    }
    assert forall|s: int, j: int|
        0 <= s < point && s < fin.len() && 0 <= j < fin[s].len() implies (#[trigger] fin[s][j]).destination
        < point by {
        assert(good(s)(fin[s][j]));
    }
    assert forall|s: int| 0 <= s < fin.len() implies #[trigger] fin[s].len()
        <= config.maximum_branches + 1 by {
        if fin[s].len() > 0 {
            assert(good(s)(fin[s][0]));
        } else {
        }
    }
    // The last branch point is unchanged by the removal.
    if exists|s: int| 0 <= s < joined.len() && #[trigger] has_backward(joined, s) {
        assert(fin[point] == joined[point]);
        assert(has_backward(fin, point));
        assert forall|s: int| point < s < fin.len() implies !#[trigger] has_backward(fin, s) by {
            assert(fin[s] == joined[s]);
            assert(!has_backward(joined, s));
        }
    } else {
        assert forall|s: int| 0 <= s < fin.len() implies !#[trigger] has_backward(fin, s) by {
            assert(fin[s] == joined[s]);
            assert(!has_backward(joined, s));
        }
    }
}

/// A branch lies within the threshold, or it is the longest backward
/// escape of the candidates.
pub open spec fn is_close_or_escape(
    candidates: Seq<Seq<Branch>>,
    threshold: u32,
    s: int,
    branch: Branch,
) -> bool {
    distance_le(branch.distance, threshold) || exists|i: int|
        #[trigger] is_longest_escape(candidates, s, i) && candidates[s][i] == branch
}

/// A threshold admits only close matches: every branch of a built graph lies
/// within its threshold, except the longest backward escape, which is kept
/// whatever its distance.
pub proof fn lemma_only_the_escape_exceeds_the_threshold(
    distances: Seq<Seq<u32>>,
    config: BranchConfig,
    target: int,
    branches: Seq<Seq<Branch>>,
    threshold: u32,
    last_branch_point: int,
)
    requires
        is_built_from(distances, config, target, branches, threshold, last_branch_point),
    ensures
        exists|candidates: Seq<Seq<Branch>>|
            #[trigger] are_nearest_rows(distances, config, candidates) && forall|s: int, j: int|
                0 <= s < branches.len() && 0 <= j < branches[s].len() ==> is_close_or_escape(
                    candidates,
                    threshold,
                    s,
                    #[trigger] branches[s][j],
                ),
{
    if distances.len() == 0 {
        let none = Seq::<Seq<Branch>>::empty();
        assert(are_nearest_rows(distances, config, none));
    } else {
        let (candidates, joined) = choose|candidates: Seq<Seq<Branch>>, joined: Seq<Seq<Branch>>|
            #[trigger] are_nearest_rows(distances, config, candidates) && #[trigger]
                keeps_longest_escape(candidates, within_threshold(candidates, threshold), joined)
                && is_chosen_threshold(config, candidates, target, threshold)
                && is_last_branch_point(joined, last_branch_point) && branches
                == without_end_traps(joined, last_branch_point);
        let n = candidates.len() as int;
        let before = within_threshold(candidates, threshold);
        let close = |s: int| (|b: Branch| is_close_or_escape(candidates, threshold, s, b));
        // The rows kept within the threshold are close.
        assert forall|s: int| 0 <= s < n implies forall|j: int|
            0 <= j < before[s].len() ==> (#[trigger] close(s))(before[s][j]) by {
            lemma_filter_keeps_matches(candidates[s], |b: Branch| distance_le(b.distance, threshold));
            assert(before[s] == keep_within(candidates[s], threshold));
        }
        // The escape, where it was added, is the longest escape.
        assert(joined.len() == n);
        assert forall|s: int| 0 <= s < n implies forall|j: int|
            0 <= j < joined[s].len() ==> (#[trigger] close(s))(joined[s][j]) by {
            if exists|s2: int, i2: int| is_backward_entry(candidates, s2, i2) {
                let (bs, bi) = choose|bs: int, bi: int|
                    #[trigger] is_longest_escape(candidates, bs, bi) && joined == if listed(
                        before[bs],
                        candidates[bs][bi].destination as int,
                    ) {
                        before
                    } else {
                        before.update(bs, before[bs].push(candidates[bs][bi]))
                    };
                if s == bs && !listed(before[bs], candidates[bs][bi].destination as int) {
                    assert forall|j: int| 0 <= j < joined[s].len() implies (#[trigger] close(s))(
                        joined[s][j],
                    ) by {
                        if j < before[s].len() {
                            assert(joined[s][j] == before[s][j]);
                        } else {
                            assert(joined[s][j] == candidates[bs][bi]);
                        }
                    }
                }
            }
        }
        // Removing end traps only drops branches.
        assert forall|s: int, j: int|
            0 <= s < branches.len() && 0 <= j < branches[s].len() implies is_close_or_escape(
            candidates,
            threshold,
            s,
            #[trigger] branches[s][j],
        ) by {
            if s < last_branch_point {
                lemma_filter_all(joined[s], |b: Branch| b.destination < last_branch_point, close(s));
                assert(branches[s] == keep_below(joined[s], last_branch_point));
            }
            assert(close(s)(branches[s][j]));
        }
    }
}

proof fn lemma_keep_within_nested(row: Seq<Branch>, lower: u32, higher: u32)
    requires
        distance_le(lower, higher),
    ensures
        keep_within(row, lower) == keep_within(keep_within(row, higher), lower),
    decreases row.len(),
{
    reveal_with_fuel(Seq::filter, 1);
    if row.len() > 0 {
        lemma_keep_within_nested(row.drop_last(), lower, higher);
        let rest = row.drop_last();
        if distance_le(row.last().distance, higher) {
            let wide = keep_within(row, higher);
            assert(wide == keep_within(rest, higher).push(row.last()));
            assert(wide.drop_last() =~= keep_within(rest, higher));
            assert(wide.last() == row.last());
        } else {
            assert(keep_within(row, higher) == keep_within(rest, higher));
        }
    }
}

/// A lower threshold admits fewer matches: for every beat, the candidates
/// within a lower threshold are exactly those within a higher one that also
/// fall within the lower, so there are no more of them.
pub proof fn lemma_lower_threshold_admits_fewer(
    candidates: Seq<Seq<Branch>>,
    lower: u32,
    higher: u32,
)
    requires
        distance_le(lower, higher),
    ensures
        forall|s: int|
            0 <= s < candidates.len() ==> #[trigger] within_threshold(candidates, lower)[s]
                == keep_within(within_threshold(candidates, higher)[s], lower)
                && within_threshold(candidates, lower)[s].len() <= within_threshold(
                candidates,
                higher,
            )[s].len(),
{
    assert forall|s: int| 0 <= s < candidates.len() implies #[trigger] within_threshold(
        candidates,
        lower,
    )[s] == keep_within(within_threshold(candidates, higher)[s], lower) && within_threshold(
        candidates,
        lower,
    )[s].len() <= within_threshold(candidates, higher)[s].len() by {
        lemma_keep_within_nested(candidates[s], lower, higher);
        let wider = keep_within(candidates[s], higher);
        lemma_filter_all(wider, |b: Branch| distance_le(b.distance, lower), |b: Branch| true);
    }
}

impl BranchGraph {
    /// Builds the graph from a square table of distance keys
    /// (`distances[s][t]` for beats `s` and `t`): the nearest candidates of every
    /// beat, kept when within the threshold, plus the longest backward escape,
    /// without branches that would skip the last branch point. With no fixed
    /// threshold, `target_sources` is the number of sources that the adaptive
    /// threshold aims to leave with a branch.
    pub fn build(distances: &Vec<Vec<u32>>, config: &BranchConfig, target_sources: usize) -> (graph:
        Self)
        requires
            is_square(distance_rows(distances@)),
        ensures
            is_built_from(
                distance_rows(distances@),
                *config,
                target_sources as int,
                rows(graph.branches@),
                graph.threshold,
                graph.last_branch_point as int,
            ),
            rows(graph.branches@).len() == distances@.len(),
            branches_are_candidates(distance_rows(distances@), *config, rows(graph.branches@)),
            has_no_end_traps(rows(graph.branches@), graph.last_branch_point as int),
            is_last_branch_point(rows(graph.branches@), graph.last_branch_point as int),
            forall|s: int|
                0 <= s < graph.branches@.len() ==> #[trigger] graph.branches@[s]@.len()
                    <= config.maximum_branches + 1,
    {
        let n = distances.len();
        let ghost dist = distance_rows(distances@);
        if n == 0 {
            let graph = BranchGraph {
                branches: Vec::new(),
                threshold: ZERO_DISTANCE,
                last_branch_point: 0,
            };
            assert(rows(graph.branches@) =~= Seq::<Seq<Branch>>::empty());
            return graph;
        }
        let mut candidates: Vec<Vec<Branch>> = Vec::new();
        let mut s: usize = 0;
        while s < n
            invariant
                n == distances@.len(),
                dist == distance_rows(distances@),
                s <= n,
                candidates@.len() == s,
                forall|t: int|
                    0 <= t < s ==> is_nearest(#[trigger] dist[t], *config, t, candidates@[t]@),
            decreases n - s,
        {
            let row = nearest_candidates(&distances[s], config, s);
            candidates.push(row);
            proof {
                assert(dist[s as int] == distances@[s as int]@);
            }
            s = s + 1;
        }
        let ghost cands = rows(candidates@);
        assert(are_nearest_rows(dist, *config, cands)) by {
            assert forall|t: int| 0 <= t < cands.len() implies is_nearest(
                #[trigger] dist[t],
                *config,
                t,
                cands[t],
            ) by {
                assert(cands[t] == candidates@[t]@);
            }
        }
        let threshold = match config.threshold {
            Some(fixed) => fixed,
            None => adaptive_threshold(&candidates, target_sources),
        };
        let mut branches = accept_within(&candidates, threshold);
        assert(branches@.len() == rows(branches@).len());
        assert(branches@.len() == candidates@.len());
        ensure_long_backward_branch(&candidates, &mut branches);
        let ghost joined = rows(branches@);
        let last_branch_point = best_last_branch(&branches);
        remove_end_traps(&mut branches, last_branch_point);
        proof {
            lemma_built_shape(dist, *config, cands, threshold, joined, last_branch_point as int);
            assert(is_chosen_threshold(*config, cands, target_sources as int, threshold));
        }
        let graph = BranchGraph { branches, threshold, last_branch_point };
        proof {
            let fin = rows(graph.branches@);
            assert forall|t: int| 0 <= t < graph.branches@.len() implies #[trigger] graph.branches@[
                t
            ]@.len() <= config.maximum_branches + 1 by {
                assert(fin[t] == graph.branches@[t]@);
            }
        }
        graph
    }
}

} // verus!
