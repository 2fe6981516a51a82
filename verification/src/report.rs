//! A summary of a beat graph for inspecting it: how many beats can jump,
//! which transitions lead backwards and how far, and which of them stand out.
//!
//! The two rankings order backward transitions as a stable sort would: the
//! longest ranks transitions by span, longest first; the closest long one
//! ranks the transitions spanning at least a given number of beats by
//! distance, closest first, and ties as the longest ranking does. Ties that
//! remain keep the order in which the transitions are listed.

use vstd::prelude::*;
use crate::graph::{Branch, BranchGraph, rows};

verus! {

/// Transitions named by each ranking of a summary.
pub const RANKED_EDGES: usize = 6;

/// A transition from `source` back to the earlier beat `destination`, `span`
/// beats back, with the order key of its distance.
#[derive(Clone, Copy, Debug, PartialEq, Eq, Structural)]
pub struct BackwardEdge {
    pub span: usize,
    pub source: usize,
    pub destination: usize,
    pub distance: u32,
}

/// The backward transitions among the branches `row` of beat `source`, in
/// their order.
pub open spec fn row_backward(row: Seq<Branch>, source: int) -> Seq<BackwardEdge>
    decreases row.len(),
{
    if row.len() == 0 {
        Seq::empty()
    } else {
        let rest = row_backward(row.drop_last(), source);
        let branch = row.last();
        if branch.destination < source {
            rest.push(
                BackwardEdge {
                    span: (source - branch.destination) as usize,
                    source: source as usize,
                    destination: branch.destination,
                    distance: branch.distance,
                },
            )
        } else {
            rest
        }
    }
}

/// The backward transitions of a graph, by source beat and then in the order
/// of each beat's branches.
pub open spec fn backward_edges(g: Seq<Seq<Branch>>) -> Seq<BackwardEdge>
    decreases g.len(),
{
    if g.len() == 0 {
        Seq::empty()
    } else {
        backward_edges(g.drop_last()) + row_backward(g.last(), g.len() - 1)
    }
}

/// Number of beats with at least one branch.
pub open spec fn source_count(g: Seq<Seq<Branch>>) -> nat
    decreases g.len(),
{
    if g.len() == 0 {
        0
    } else {
        source_count(g.drop_last()) + if g.last().len() > 0 {
            1nat
        } else {
            0nat
        }
    }
}

/// Number of transitions spanning at least `min_span` beats.
pub open spec fn long_count(edges: Seq<BackwardEdge>, min_span: int) -> nat
    decreases edges.len(),
{
    if edges.len() == 0 {
        0
    } else {
        long_count(edges.drop_last(), min_span) + if edges.last().span >= min_span {
            1nat
        } else {
            0nat
        }
    }
}

/// How backward transitions are ranked.
#[derive(Clone, Copy, Debug)]
pub enum Ranking {
    /// All of them, longest first.
    Longest,
    /// Those spanning at least `min_span` beats, closest first.
    ClosestLong { min_span: usize },
}

/// Whether transition `i` takes part in the ranking.
pub open spec fn eligible(e: Seq<BackwardEdge>, ranking: Ranking, i: int) -> bool {
    match ranking {
        Ranking::Longest => true,
        Ranking::ClosestLong { min_span } => e[i].span >= min_span,
    }
}

/// Transition `i` comes before transition `j` when ranked by span.
pub open spec fn longer(e: Seq<BackwardEdge>, i: int, j: int) -> bool {
    e[i].span > e[j].span || (e[i].span == e[j].span && i < j)
}

/// Transition `i` comes before transition `j` in the ranking.
pub open spec fn ranks_before(e: Seq<BackwardEdge>, ranking: Ranking, i: int, j: int) -> bool {
    match ranking {
        Ranking::Longest => longer(e, i, j),
        Ranking::ClosestLong { .. } => e[i].distance < e[j].distance || (e[i].distance
            == e[j].distance && longer(e, i, j)),
    }
}

/// `chosen` lists, in rank order, the first `limit` eligible transitions of
/// the ranking (all of them where there are fewer).
pub open spec fn is_top_ranked(
    e: Seq<BackwardEdge>,
    ranking: Ranking,
    limit: int,
    chosen: Seq<usize>,
) -> bool {
    &&& chosen.len() <= limit
    &&& forall|a: int|
        0 <= a < chosen.len() ==> #[trigger] chosen[a] < e.len() && eligible(
            e,
            ranking,
            chosen[a] as int,
        )
    &&& forall|a: int, b: int|
        0 <= a < b < chosen.len() ==> ranks_before(
            e,
            ranking,
            #[trigger] chosen[a] as int,
            #[trigger] chosen[b] as int,
        )
    &&& forall|j: int, a: int|
        #![trigger ranks_before(e, ranking, chosen[a] as int, j)]
        0 <= j < e.len() && eligible(e, ranking, j) && !chosen.contains(j as usize) && 0 <= a
            < chosen.len() ==> ranks_before(e, ranking, chosen[a] as int, j)
    &&& chosen.len() < limit ==> forall|j: int|
        0 <= j < e.len() && eligible(e, ranking, j) ==> #[trigger] chosen.contains(j as usize)
}

/// The first four clauses of `is_top_ranked`: a ranked prefix.
pub open spec fn is_ranked_prefix(e: Seq<BackwardEdge>, ranking: Ranking, chosen: Seq<usize>) -> bool {
    &&& forall|a: int|
        0 <= a < chosen.len() ==> #[trigger] chosen[a] < e.len() && eligible(
            e,
            ranking,
            chosen[a] as int,
        )
    &&& forall|a: int, b: int|
        0 <= a < b < chosen.len() ==> ranks_before(
            e,
            ranking,
            #[trigger] chosen[a] as int,
            #[trigger] chosen[b] as int,
        )
    &&& forall|j: int, a: int|
        #![trigger ranks_before(e, ranking, chosen[a] as int, j)]
        0 <= j < e.len() && eligible(e, ranking, j) && !chosen.contains(j as usize) && 0 <= a
            < chosen.len() ==> ranks_before(e, ranking, chosen[a] as int, j)
}

/// Whether transition `j` can be ranked next after `chosen`.
pub open spec fn admissible(
    e: Seq<BackwardEdge>,
    ranking: Ranking,
    chosen: Seq<usize>,
    j: int,
) -> bool {
    &&& eligible(e, ranking, j)
    &&& (chosen.len() == 0 || ranks_before(e, ranking, chosen.last() as int, j))
}

proof fn lemma_order_facts(e: Seq<BackwardEdge>, ranking: Ranking, i: int, j: int, k: int)
    ensures
        !ranks_before(e, ranking, i, i),
        i != j ==> ranks_before(e, ranking, i, j) || ranks_before(e, ranking, j, i),
        ranks_before(e, ranking, i, j) ==> !ranks_before(e, ranking, j, i),
        ranks_before(e, ranking, i, j) && ranks_before(e, ranking, j, k) ==> ranks_before(
            e,
            ranking,
            i,
            k,
        ),
{
}

proof fn lemma_admissible_iff_unchosen(
    e: Seq<BackwardEdge>,
    ranking: Ranking,
    chosen: Seq<usize>,
    j: int,
)
    requires
        is_ranked_prefix(e, ranking, chosen),
        0 <= j < e.len(),
        j <= usize::MAX,
        eligible(e, ranking, j),
    ensures
        admissible(e, ranking, chosen, j) <==> !chosen.contains(j as usize),
{
    if chosen.contains(j as usize) {
        let a = choose|a: int| 0 <= a < chosen.len() && chosen[a] == j as usize;
        let last = chosen.len() - 1;
        assert(chosen[a] as int == j);
        lemma_order_facts(e, ranking, chosen[last] as int, j, j);
        if a < last {
            assert(ranks_before(e, ranking, chosen[a] as int, chosen[last] as int));
            lemma_order_facts(e, ranking, j, chosen[last] as int, j);
        }
    } else if chosen.len() > 0 {
        let last = chosen.len() - 1;
        assert(ranks_before(e, ranking, chosen[last] as int, j));
    }
}

proof fn lemma_ranked_prefixes_agree(
    e: Seq<BackwardEdge>,
    ranking: Ranking,
    limit: int,
    c1: Seq<usize>,
    c2: Seq<usize>,
    p: int,
)
    requires
        is_top_ranked(e, ranking, limit, c1),
        is_top_ranked(e, ranking, limit, c2),
        e.len() <= usize::MAX,
        0 <= p <= c1.len(),
        p <= c2.len(),
    ensures
        forall|q: int| 0 <= q < p ==> c1[q] == c2[q],
    decreases p,
{
    if p > 0 {
        lemma_ranked_prefixes_agree(e, ranking, limit, c1, c2, p - 1);
        let x = c1[p - 1] as int;
        let y = c2[p - 1] as int;
        lemma_order_facts(e, ranking, x, y, y);
        // Where each one stands in the other ranking.
        assert(x == y || ranks_before(e, ranking, x, y)) by {
            if c1.contains(y as usize) {
                let i = choose|i: int| 0 <= i < c1.len() && c1[i] == y as usize;
                if i < p - 1 {
                    assert(c2[i] == c1[i]);
                    assert(ranks_before(e, ranking, c2[i] as int, y));
                }
            }
        }
        assert(y == x || ranks_before(e, ranking, y, x)) by {
            if c2.contains(x as usize) {
                let i = choose|i: int| 0 <= i < c2.len() && c2[i] == x as usize;
                if i < p - 1 {
                    assert(c1[i] == c2[i]);
                    assert(ranks_before(e, ranking, c1[i] as int, x));
                }
            }
        }
    }
}

/// A ranking has one top list: two lists that both rank the first `limit`
/// eligible transitions are the same list.
pub proof fn lemma_top_ranked_unique(
    e: Seq<BackwardEdge>,
    ranking: Ranking,
    limit: int,
    c1: Seq<usize>,
    c2: Seq<usize>,
)
    requires
        is_top_ranked(e, ranking, limit, c1),
        is_top_ranked(e, ranking, limit, c2),
        e.len() <= usize::MAX,
    ensures
        c1 == c2,
{
    if c1.len() < c2.len() {
        lemma_ranked_prefixes_agree(e, ranking, limit, c1, c2, c1.len() as int);
        let y = c2[c1.len() as int];
        assert(y < e.len() && eligible(e, ranking, y as int));
        assert(c1.contains((y as int) as usize));
        let i = choose|i: int| 0 <= i < c1.len() && c1[i] == y;
        assert(c2[i] == y);
        lemma_order_facts(e, ranking, y as int, y as int, y as int);
        assert(ranks_before(e, ranking, c2[i] as int, c2[c1.len() as int] as int));
    } else if c2.len() < c1.len() {
        lemma_ranked_prefixes_agree(e, ranking, limit, c1, c2, c2.len() as int);
        let x = c1[c2.len() as int];
        assert(x < e.len() && eligible(e, ranking, x as int));
        assert(c2.contains((x as int) as usize));
        let i = choose|i: int| 0 <= i < c2.len() && c2[i] == x;
        assert(c1[i] == x);
        lemma_order_facts(e, ranking, x as int, x as int, x as int);
        assert(ranks_before(e, ranking, c1[i] as int, c1[c2.len() as int] as int));
    } else {
        lemma_ranked_prefixes_agree(e, ranking, limit, c1, c2, c1.len() as int);
        assert(c1 =~= c2);
    }
}

fn ranks_before_exec(edges: &Vec<BackwardEdge>, ranking: Ranking, i: usize, j: usize) -> (before:
    bool)
    requires
        i < edges@.len(),
        j < edges@.len(),
    ensures
        before == ranks_before(edges@, ranking, i as int, j as int),
{
    let a = edges[i];
    let b = edges[j];
    let longer = a.span > b.span || (a.span == b.span && i < j);
    match ranking {
        Ranking::Longest => longer,
        Ranking::ClosestLong { .. } => a.distance < b.distance || (a.distance == b.distance
            && longer),
    }
}

fn eligible_exec(edges: &Vec<BackwardEdge>, ranking: Ranking, i: usize) -> (yes: bool)
    requires
        i < edges@.len(),
    ensures
        yes == eligible(edges@, ranking, i as int),
{
    match ranking {
        Ranking::Longest => true,
        Ranking::ClosestLong { min_span } => edges[i].span >= min_span,
    }
}

/// The first `limit` transitions of a ranking, as indices into `edges`.
pub fn top_ranked(edges: &Vec<BackwardEdge>, ranking: Ranking, limit: usize) -> (chosen: Vec<
    usize,
>)
    ensures
        is_top_ranked(edges@, ranking, limit as int, chosen@),
{
    let mut chosen: Vec<usize> = Vec::new();
    while chosen.len() < limit
        invariant
            chosen@.len() <= limit,
            is_ranked_prefix(edges@, ranking, chosen@),
        decreases limit - chosen@.len(),
    {
        let ghost e = edges@;
        let ghost c = chosen@;
        let mut best: Option<usize> = None;
        let mut j: usize = 0;
        while j < edges.len()
            invariant
                e == edges@,
                c == chosen@,
                j <= e.len(),
                is_ranked_prefix(e, ranking, c),
                best matches Some(b) ==> b < j && admissible(e, ranking, c, b as int),
                forall|k: int|
                    0 <= k < j && #[trigger] admissible(e, ranking, c, k) ==> (best matches Some(
                        b,
                    ) && (k == b || ranks_before(e, ranking, b as int, k))),
            decreases e.len() - j,
        {
            let candidate = eligible_exec(edges, ranking, j) && (chosen.len() == 0
                || ranks_before_exec(edges, ranking, chosen[chosen.len() - 1], j));
            if candidate {
                let better = match best {
                    None => true,
                    Some(b) => ranks_before_exec(edges, ranking, j, b),
                };
                if better {
                    proof {
                        assert forall|k: int|
                            0 <= k < j && #[trigger] admissible(
                                e,
                                ranking,
                                c,
                                k,
                            ) implies ranks_before(e, ranking, j as int, k) by {
                            let b = best->0;
                            lemma_order_facts(e, ranking, j as int, b as int, k);
                        }
                    }
                    best = Some(j);
                } else {
                    proof {
                        let b = best->0;
                        lemma_order_facts(e, ranking, b as int, j as int, j as int);
                    }
                }
            }
            j = j + 1;
        }
        match best {
            None => {
                proof {
                    assert forall|k: int|
                        0 <= k < e.len() && eligible(e, ranking, k) implies #[trigger] c.contains(
                        k as usize,
                    ) by {
                        lemma_admissible_iff_unchosen(e, ranking, c, k);
                    }
                }
                return chosen;
            },
            Some(b) => {
                proof {
                    lemma_admissible_iff_unchosen(e, ranking, c, b as int);
                    assert forall|k: int, a: int|
                        0 <= k < e.len() && eligible(e, ranking, k) && !c.push(b).contains(
                            k as usize,
                        ) && 0 <= a < c.len() + 1 implies #[trigger] ranks_before(
                        e,
                        ranking,
                        c.push(b)[a] as int,
                        k,
                    ) by {
                        assert(!c.contains(k as usize)) by {
                            if c.contains(k as usize) {
                                let i = choose|i: int| 0 <= i < c.len() && c[i] == k as usize;
                                assert(c.push(b)[i] == k as usize);
                            }
                        }
                        if a == c.len() {
                            lemma_admissible_iff_unchosen(e, ranking, c, k);
                            assert(k != b) by {
                                assert(c.push(b)[c.len() as int] == b);
                            }
                        }
                    }
                }
                chosen.push(b);
            },
        }
    }
    chosen
}

/// The backward transitions among the branches of beat `source`, appended to
/// `edges`.
fn push_row_backward(edges: &mut Vec<BackwardEdge>, row: &Vec<Branch>, source: usize)
    ensures
        final(edges)@ == old(edges)@ + row_backward(row@, source as int),
{
    let mut i: usize = 0;
    assert(row@.take(0) =~= Seq::<Branch>::empty());
    while i < row.len()
        invariant
            i <= row@.len(),
            edges@ == old(edges)@ + row_backward(row@.take(i as int), source as int),
        decreases row@.len() - i,
    {
        let branch = row[i];
        proof {
            assert(row@.take(i as int + 1).drop_last() =~= row@.take(i as int));
        }
        if branch.destination < source {
            edges.push(
                BackwardEdge {
                    span: source - branch.destination,
                    source,
                    destination: branch.destination,
                    distance: branch.distance,
                },
            );
        }
        i = i + 1;
    }
    assert(row@.take(i as int) =~= row@);
}

/// The backward transitions of a graph.
pub fn backward_edges_of(graph: &BranchGraph) -> (edges: Vec<BackwardEdge>)
    ensures
        edges@ == backward_edges(rows(graph.branches@)),
{
    let ghost g = rows(graph.branches@);
    let mut edges: Vec<BackwardEdge> = Vec::new();
    let mut s: usize = 0;
    assert(g.take(0) =~= Seq::<Seq<Branch>>::empty());
    while s < graph.branches.len()
        invariant
            g == rows(graph.branches@),
            s <= g.len(),
            edges@ == backward_edges(g.take(s as int)),
        decreases g.len() - s,
    {
        proof {
            assert(g.take(s as int + 1).drop_last() =~= g.take(s as int));
        }
        push_row_backward(&mut edges, &graph.branches[s], s);
        s = s + 1;
    }
    assert(g.take(s as int) =~= g);
    edges
}

/// Number of beats of a graph with at least one branch.
pub fn branching_sources(graph: &BranchGraph) -> (count: usize)
    ensures
        count == source_count(rows(graph.branches@)),
{
    let ghost g = rows(graph.branches@);
    let mut count: usize = 0;
    let mut s: usize = 0;
    assert(g.take(0) =~= Seq::<Seq<Branch>>::empty());
    while s < graph.branches.len()
        invariant
            g == rows(graph.branches@),
            s <= g.len(),
            count <= s,
            count == source_count(g.take(s as int)),
        decreases g.len() - s,
    {
        proof {
            assert(g.take(s as int + 1).drop_last() =~= g.take(s as int));
        }
        if graph.branches[s].len() > 0 {
            count = count + 1;
        }
        s = s + 1;
    }
    assert(g.take(s as int) =~= g);
    count
}

/// Number of transitions spanning at least `min_span` beats.
pub fn count_long(edges: &Vec<BackwardEdge>, min_span: usize) -> (count: usize)
    ensures
        count == long_count(edges@, min_span as int),
{
    let mut count: usize = 0;
    let mut i: usize = 0;
    assert(edges@.take(0) =~= Seq::<BackwardEdge>::empty());
    while i < edges.len()
        invariant
            i <= edges@.len(),
            count <= i,
            count == long_count(edges@.take(i as int), min_span as int),
        decreases edges@.len() - i,
    {
        proof {
            assert(edges@.take(i as int + 1).drop_last() =~= edges@.take(i as int));
        }
        if edges[i].span >= min_span {
            count = count + 1;
        }
        i = i + 1;
    }
    assert(edges@.take(i as int) =~= edges@);
    count
}

/// The first branch of beat `source` that leads to `destination`, if the
/// graph has that beat and such a branch.
pub fn find_edge(graph: &BranchGraph, source: usize, destination: usize) -> (found: Option<Branch>)
    ensures
        match found {
            None => source >= graph.branches@.len() || forall|i: int|
                0 <= i < graph.branches@[source as int]@.len()
                    ==> #[trigger] graph.branches@[source as int]@[i].destination != destination,
            Some(branch) => source < graph.branches@.len() && exists|i: int|
                0 <= i < graph.branches@[source as int]@.len()
                    && #[trigger] graph.branches@[source as int]@[i] == branch
                    && branch.destination == destination && forall|k: int|
                    0 <= k < i ==> graph.branches@[source as int]@[k].destination != destination,
        },
{
    if source >= graph.branches.len() {
        return None;
    }
    let row = &graph.branches[source];
    let mut i: usize = 0;
    while i < row.len()
        invariant
            source < graph.branches@.len(),
            row@ == graph.branches@[source as int]@,
            i <= row@.len(),
            forall|k: int| 0 <= k < i ==> row@[k].destination != destination,
        decreases row@.len() - i,
    {
        if row[i].destination == destination {
            assert(graph.branches@[source as int]@[i as int] == row@[i as int]);
            return Some(row[i]);
        }
        i = i + 1;
    }
    None
}

/// What a summary reports of a graph.
pub struct GraphSummary {
    /// Beats with at least one branch.
    pub sources: usize,
    /// The backward transitions.
    pub backward: Vec<BackwardEdge>,
    /// Backward transitions spanning at least a quarter of the track.
    pub long_backward: usize,
    /// The longest backward transitions, as indices into `backward`.
    pub longest: Vec<usize>,
    /// The closest of the long backward transitions, as indices into
    /// `backward`.
    pub closest_long: Vec<usize>,
}

/// The summary of a graph of a track of `beat_count` beats. A transition is
/// long when it spans at least a quarter of the beats (rounded down); each
/// ranking names at most `RANKED_EDGES` transitions.
pub fn summarize(graph: &BranchGraph, beat_count: usize) -> (summary: GraphSummary)
    ensures
        summary.sources == source_count(rows(graph.branches@)),
        summary.backward@ == backward_edges(rows(graph.branches@)),
        summary.long_backward == long_count(summary.backward@, beat_count as int / 4),
        is_top_ranked(summary.backward@, Ranking::Longest, RANKED_EDGES as int, summary.longest@),
        is_top_ranked(
            summary.backward@,
            Ranking::ClosestLong { min_span: beat_count / 4 },
            RANKED_EDGES as int,
            summary.closest_long@,
        ),
{
    let sources = branching_sources(graph);
    let backward = backward_edges_of(graph);
    let min_span = beat_count / 4;
    let long_backward = count_long(&backward, min_span);
    let longest = top_ranked(&backward, Ranking::Longest, RANKED_EDGES);
    let closest_long = top_ranked(&backward, Ranking::ClosestLong { min_span }, RANKED_EDGES);
    GraphSummary { sources, backward, long_backward, longest, closest_long }
}

} // verus!
