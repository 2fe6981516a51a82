//! The structural side of the endless walk over a beat graph.
//!
//! After every beat the walk either plays the next beat, jumps along a branch
//! of that next beat, or, past the last beat, restarts at beat 0. This module
//! decides which moves are open, applies the move that was drawn, and keeps
//! the usage counts that later weigh the draw. The draw itself is made by the
//! caller, from those counts.

use vstd::prelude::*;
use crate::graph::{
    Branch, BranchGraph, distance_at_most, distance_exceeds, distance_gt, distance_le, rows,
};

verus! {

/// One planned beat. `jumped_from` names the source beat when the beat was
/// reached by a branch or by the restart at the end, and is `None` for
/// ordinary sequential playback.
#[derive(Clone, Copy, Debug, PartialEq, Eq, Structural)]
pub struct Step {
    pub beat: usize,
    pub jumped_from: Option<usize>,
}

/// What the next step of the walk is about.
#[derive(Clone, Copy, Debug, PartialEq, Eq, Structural)]
pub enum Upcoming {
    /// The graph has no beats; there is nothing to play.
    Finished,
    /// The last beat has been played; playback restarts at beat 0.
    Restart,
    /// The next beat is `0`: play it, or jump along one of its branches.
    From(usize),
}

/// A possible next move, as offered to the weighted draw.
#[derive(Clone, Copy, Debug, PartialEq, Eq, Structural)]
pub struct Choice {
    pub source: usize,
    pub destination: usize,
    /// The branch taken, as an index into the source's branches.
    pub branch: Option<usize>,
    pub is_sequential: bool,
    /// Whether the move may be drawn at all; closed moves have weight zero.
    pub open: bool,
}

/// The abstract state of a planner.
pub struct PlannerView {
    pub branches: Seq<Seq<Branch>>,
    pub threshold: u32,
    pub last_branch_point: usize,
    pub loop_exit: Option<usize>,
    pub current: Option<usize>,
    pub sequential_uses: Seq<u32>,
    pub branch_uses: Seq<Seq<u32>>,
}

/// Stateful infinite walk over a beat graph.
pub struct PlaybackPlanner {
    graph: BranchGraph,
    loop_exit: Option<usize>,
    current: Option<usize>,
    sequential_uses: Vec<u32>,
    branch_uses: Vec<Vec<u32>>,
}

impl View for PlaybackPlanner {
    type V = PlannerView;

    closed spec fn view(&self) -> PlannerView {
        PlannerView {
            branches: rows(self.graph.branches@),
            threshold: self.graph.threshold,
            last_branch_point: self.graph.last_branch_point,
            loop_exit: self.loop_exit,
            current: self.current,
            sequential_uses: self.sequential_uses@,
            branch_uses: self.branch_uses@.map_values(|uses: Vec<u32>| uses@),
        }
    }
}

/// Every branch lands on a beat of the graph.
pub open spec fn destinations_in_range(g: Seq<Seq<Branch>>) -> bool {
    forall|s: int, j: int|
        0 <= s < g.len() && 0 <= j < g[s].len() ==> (#[trigger] g[s][j]).destination < g.len()
}

/// Source `s` has a backward branch within the threshold.
pub open spec fn has_qualified_backward(g: Seq<Seq<Branch>>, threshold: u32, s: int) -> bool {
    exists|j: int|
        0 <= j < g[s].len() && g[s][j].destination < s && distance_le(g[s][j].distance, threshold)
}

/// The loop exit is the last source with a backward branch within the
/// threshold; only such a branch may become mandatory.
pub open spec fn is_loop_exit(g: Seq<Seq<Branch>>, threshold: u32, exit: Option<usize>) -> bool {
    match exit {
        None => forall|s: int| 0 <= s < g.len() ==> !#[trigger] has_qualified_backward(
            g,
            threshold,
            s,
        ),
        Some(e) => {
            &&& e < g.len()
            &&& has_qualified_backward(g, threshold, e as int)
            &&& forall|s: int| e < s < g.len() ==> !#[trigger] has_qualified_backward(
                g,
                threshold,
                s,
            )
        },
    }
}

/// The planner state is consistent with its graph.
pub open spec fn view_wf(v: PlannerView) -> bool {
    &&& v.branches.len() <= usize::MAX
    &&& forall|s: int| 0 <= s < v.branches.len() ==> #[trigger] v.branches[s].len() <= usize::MAX
    &&& destinations_in_range(v.branches)
    &&& is_loop_exit(v.branches, v.threshold, v.loop_exit)
    &&& v.sequential_uses.len() == v.branches.len()
    &&& v.branch_uses.len() == v.branches.len()
    &&& forall|s: int| 0 <= s < v.branches.len() ==> #[trigger] v.branch_uses[s].len()
        == v.branches[s].len()
    &&& v.current matches Some(c) ==> c < v.branches.len()
}

pub open spec fn upcoming_of(v: PlannerView) -> Upcoming {
    if v.branches.len() == 0 {
        Upcoming::Finished
    } else {
        let next = match v.current {
            Some(c) => c + 1,
            None => 0,
        };
        if next >= v.branches.len() {
            Upcoming::Restart
        } else {
            Upcoming::From(next as usize)
        }
    }
}

/// A branch of `source` is closed when it would jump to or past the loop
/// exit from before it, or when the source is the loop exit itself and the
/// branch lies beyond the threshold.
pub open spec fn branch_open(v: PlannerView, source: int, index: int) -> bool {
    let branch = v.branches[source][index];
    let skips_exit = match v.loop_exit {
        Some(e) => source <= e && branch.destination >= e,
        None => false,
    };
    let forced = v.loop_exit == Some(source as usize);
    !skips_exit && !(forced && distance_gt(branch.distance, v.threshold))
}

/// Sequential playback is closed only at the loop exit, where a branch is
/// mandatory.
pub open spec fn sequential_open(v: PlannerView, source: int) -> bool {
    v.branches[source].len() == 0 || v.loop_exit != Some(source as usize)
}

pub open spec fn branch_choice(v: PlannerView, source: int, index: int) -> Choice {
    Choice {
        source: source as usize,
        destination: v.branches[source][index].destination,
        branch: Some(index as usize),
        is_sequential: false,
        open: branch_open(v, source, index),
    }
}

/// The moves available for the next step, sequential playback first, then
/// the branches of the source in order.
pub open spec fn choices_of(v: PlannerView) -> Seq<Choice> {
    match upcoming_of(v) {
        Upcoming::Finished => Seq::empty(),
        Upcoming::Restart => seq![
            Choice {
                source: match v.current {
                    Some(c) => c,
                    None => 0,
                },
                destination: 0,
                branch: None,
                is_sequential: false,
                open: true,
            },
        ],
        Upcoming::From(s) => seq![
            Choice {
                source: s,
                destination: s,
                branch: None,
                is_sequential: true,
                open: sequential_open(v, s as int),
            },
        ] + Seq::new(v.branches[s as int].len(), |i: int| branch_choice(v, s as int, i)),
    }
}

/// Whether `selection` (a branch index, or `None` for sequential playback)
/// names an open move from `source`.
pub open spec fn selection_open(v: PlannerView, source: int, selection: Option<usize>) -> bool {
    match selection {
        None => sequential_open(v, source),
        Some(i) => i < v.branches[source].len() && branch_open(v, source, i as int),
    }
}

/// The use count that taking `selection` from `source` increments is below
/// its maximum.
pub open spec fn use_count_has_room(v: PlannerView, selection: Option<usize>) -> bool {
    match upcoming_of(v) {
        Upcoming::From(s) => selection_open(v, s as int, selection) ==> match selection {
            None => v.sequential_uses[s as int] < u32::MAX,
            Some(i) => v.branch_uses[s as int][i as int] < u32::MAX,
        },
        _ => true,
    }
}

/// The planner after taking the next step with `selection`, and that step;
/// `None` when there is nothing to play or the selection is closed.
pub open spec fn commit_of(v: PlannerView, selection: Option<usize>) -> Option<(PlannerView, Step)> {
    match upcoming_of(v) {
        Upcoming::Finished => None,
        Upcoming::Restart => Some(
            (PlannerView { current: Some(0), ..v }, Step { beat: 0, jumped_from: v.current }),
        ),
        Upcoming::From(s) => if !selection_open(v, s as int, selection) {
            None
        } else {
            match selection {
                None => Some(
                    (
                        PlannerView {
                            current: Some(s),
                            sequential_uses: v.sequential_uses.update(
                                s as int,
                                (v.sequential_uses[s as int] + 1) as u32,
                            ),
                            ..v
                        },
                        Step { beat: s, jumped_from: None },
                    ),
                ),
                Some(i) => {
                    let destination = v.branches[s as int][i as int].destination;
                    Some(
                        (
                            PlannerView {
                                current: Some(destination),
                                branch_uses: v.branch_uses.update(
                                    s as int,
                                    v.branch_uses[s as int].update(
                                        i as int,
                                        (v.branch_uses[s as int][i as int] + 1) as u32,
                                    ),
                                ),
                                ..v
                            },
                            Step { beat: destination, jumped_from: Some(s) },
                        ),
                    )
                },
            }
        },
    }
}

fn has_qualified_backward_row(row: &Vec<Branch>, threshold: u32, source: usize) -> (r: bool)
    ensures
        r == exists|j: int|
            0 <= j < row@.len() && row@[j].destination < source && distance_le(row@[j].distance, threshold),
{
    let mut j: usize = 0;
    while j < row.len()
        invariant
            j <= row@.len(),
            forall|a: int|
                0 <= a < j ==> !(row@[a].destination < source && distance_le(row@[a].distance, threshold)),
        decreases row@.len() - j,
    {
        if row[j].destination < source && distance_at_most(row[j].distance, threshold) {
            return true;
        }
        j = j + 1;
    }
    false
}

impl PlaybackPlanner {
    /// Starts a walk before the first beat of `graph`, with no use recorded.
    pub fn from_graph(graph: BranchGraph) -> (planner: Self)
        requires
            destinations_in_range(rows(graph.branches@)),
        ensures
            view_wf(planner@),
            planner@.branches == rows(graph.branches@),
            planner@.threshold == graph.threshold,
            planner@.last_branch_point == graph.last_branch_point,
            planner@.current is None,
            forall|s: int|
                0 <= s < planner@.sequential_uses.len() ==> #[trigger] planner@.sequential_uses[s]
                    == 0,
            forall|s: int, i: int|
                0 <= s < planner@.branch_uses.len() && 0 <= i < planner@.branch_uses[s].len()
                    ==> #[trigger] planner@.branch_uses[s][i] == 0,
    {
        let ghost g = rows(graph.branches@);
        let n = graph.branches.len();
        // Only an ordinary, quality-qualified backward edge may become
        // mandatory.
        let mut loop_exit: Option<usize> = None;
        let mut s = n;
        while s > 0
            invariant_except_break
                loop_exit is None,
                forall|t: int| s <= t < n ==> !#[trigger] has_qualified_backward(
                    g,
                    graph.threshold,
                    t,
                ),
            invariant
                g == rows(graph.branches@),
                n == g.len(),
                s <= n,
            ensures
                is_loop_exit(g, graph.threshold, loop_exit),
            decreases s,
        {
            s = s - 1;
            let found = has_qualified_backward_row(&graph.branches[s], graph.threshold, s);
            assert(g[s as int] == graph.branches@[s as int]@);
            if found {
                loop_exit = Some(s);
                break;
            }
        }
        let sequential_uses: Vec<u32> = vec![0; n];
        let mut branch_uses: Vec<Vec<u32>> = Vec::new();
        let mut t: usize = 0;
        while t < n
            invariant
                g == rows(graph.branches@),
                n == g.len(),
                t <= n,
                branch_uses@.len() == t,
                forall|u: int|
                    0 <= u < t ==> #[trigger] branch_uses@[u]@.len() == g[u].len() && forall|
                        i: int,
                    |
                        0 <= i < branch_uses@[u]@.len() ==> branch_uses@[u]@[i] == 0,
            decreases n - t,
        {
            let uses: Vec<u32> = vec![0; graph.branches[t].len()];
            assert(g[t as int] == graph.branches@[t as int]@);
            branch_uses.push(uses);
            t = t + 1;
        }
        let planner = PlaybackPlanner {
            graph,
            loop_exit,
            current: None,
            sequential_uses,
            branch_uses,
        };
        proof {
            let v = planner@;
            assert forall|u: int| 0 <= u < n implies #[trigger] v.branches[u].len() <= usize::MAX by {
                assert(v.branches[u] == planner.graph.branches@[u]@);
                assert(planner.graph.branches@[u]@.len() == planner.graph.branches@[u].len());
            }
            assert forall|u: int| 0 <= u < n implies #[trigger] v.branch_uses[u].len()
                == v.branches[u].len() by {
                assert(v.branch_uses[u] == planner.branch_uses@[u]@);
            }
            assert forall|u: int, i: int|
                0 <= u < v.branch_uses.len() && 0 <= i < v.branch_uses[u].len()
                    implies #[trigger] v.branch_uses[u][i] == 0 by {
                assert(v.branch_uses[u] == planner.branch_uses@[u]@);
            }
        }
        planner
    }

    /// The graph being walked.
    pub fn graph(&self) -> (graph: &BranchGraph)
        ensures
            rows(graph.branches@) == self@.branches,
            graph.threshold == self@.threshold,
            graph.last_branch_point == self@.last_branch_point,
    {
        &self.graph
    }

    /// The beat most recently planned.
    pub fn current(&self) -> (current: Option<usize>)
        ensures
            current == self@.current,
    {
        self.current
    }

    /// The last source whose backward branch within the threshold is
    /// mandatory.
    pub fn loop_exit(&self) -> (exit: Option<usize>)
        ensures
            exit == self@.loop_exit,
    {
        self.loop_exit
    }

    /// How often sequential playback was chosen at `source`.
    pub fn sequential_uses(&self, source: usize) -> (uses: u32)
        requires
            view_wf(self@),
            source < self@.branches.len(),
        ensures
            uses == self@.sequential_uses[source as int],
    {
        self.sequential_uses[source]
    }

    /// How often branch `index` of `source` was taken.
    pub fn branch_uses(&self, source: usize, index: usize) -> (uses: u32)
        requires
            view_wf(self@),
            source < self@.branches.len(),
            index < self@.branches[source as int].len(),
        ensures
            uses == self@.branch_uses[source as int][index as int],
    {
        assert(self@.branch_uses[source as int] == self.branch_uses@[source as int]@);
        self.branch_uses[source][index]
    }

    /// Continue planning after `beat`, preserving the usage counts. Returns
    /// `false`, changing nothing, when `beat` is not a beat of the graph.
    pub fn continue_from(&mut self, beat: usize) -> (moved: bool)
        requires
            view_wf(old(self)@),
        ensures
            view_wf(final(self)@),
            moved == (beat < old(self)@.branches.len()),
            final(self)@ == if moved {
                PlannerView { current: Some(beat), ..old(self)@ }
            } else {
                old(self)@
            },
    {
        if beat >= self.graph.branches.len() {
            return false;
        }
        self.current = Some(beat);
        true
    }

    /// What the next step is about.
    pub fn upcoming(&self) -> (upcoming: Upcoming)
        ensures
            upcoming == upcoming_of(self@),
    {
        let n = self.graph.branches.len();
        if n == 0 {
            return Upcoming::Finished;
        }
        let next = match self.current {
            Some(c) => {
                if c >= n {
                    return Upcoming::Restart;
                }
                c + 1
            },
            None => 0,
        };
        if next >= n {
            Upcoming::Restart
        } else {
            Upcoming::From(next)
        }
    }

    fn is_branch_open(&self, source: usize, index: usize) -> (open: bool)
        requires
            source < self@.branches.len(),
            index < self@.branches[source as int].len(),
        ensures
            open == branch_open(self@, source as int, index as int),
    {
        assert(self@.branches[source as int] == self.graph.branches@[source as int]@);
        let branch = self.graph.branches[source][index];
        let skips_exit = match self.loop_exit {
            Some(e) => source <= e && branch.destination >= e,
            None => false,
        };
        let forced = self.loop_exit == Some(source);
        !skips_exit && !(forced && distance_exceeds(branch.distance, self.graph.threshold))
    }

    /// The moves available for the next step: one restart move past the last
    /// beat, otherwise sequential playback followed by every branch of the
    /// next beat, each marked open or closed.
    pub fn next_choices(&self) -> (choices: Vec<Choice>)
        requires
            view_wf(self@),
        ensures
            choices@ == choices_of(self@),
    {
        match self.upcoming() {
            Upcoming::Finished => {
                let choices: Vec<Choice> = Vec::new();
                assert(choices@ =~= choices_of(self@));
                choices
            },
            Upcoming::Restart => {
                let source = match self.current {
                    Some(c) => c,
                    None => 0,
                };
                let choices = vec![
                    Choice {
                        source,
                        destination: 0,
                        branch: None,
                        is_sequential: false,
                        open: true,
                    },
                ];
                assert(choices@ =~= choices_of(self@));
                choices
            },
            Upcoming::From(source) => {
                assert(self@.branches[source as int] == self.graph.branches@[source as int]@);
                let count = self.graph.branches[source].len();
                let mut choices = vec![
                    Choice {
                        source,
                        destination: source,
                        branch: None,
                        is_sequential: true,
                        open: count == 0 || self.loop_exit != Some(source),
                    },
                ];
                let mut i: usize = 0;
                while i < count
                    invariant
                        view_wf(self@),
                        upcoming_of(self@) == Upcoming::From(source),
                        source < self@.branches.len(),
                        count == self@.branches[source as int].len(),
                        i <= count,
                        choices@.len() == i + 1,
                        choices@[0] == choices_of(self@)[0],
                        forall|a: int|
                            0 <= a < i ==> #[trigger] choices@[a + 1] == branch_choice(
                                self@,
                                source as int,
                                a,
                            ),
                    decreases count - i,
                {
                    assert(self@.branches[source as int] == self.graph.branches@[source as int]@);
                    let open = self.is_branch_open(source, i);
                    choices.push(
                        Choice {
                            source,
                            destination: self.graph.branches[source][i].destination,
                            branch: Some(i),
                            is_sequential: false,
                            open,
                        },
                    );
                    i = i + 1;
                }
                proof {
                    let expected = choices_of(self@);
                    assert forall|a: int| 0 <= a < choices@.len() implies #[trigger] choices@[a]
                        == expected[a] by {
                        if a > 0 {
                            assert(choices@[(a - 1) + 1] == branch_choice(self@, source as int, a - 1));
                        }
                    }
                    assert(choices@ =~= expected);
                }
                choices
            },
        }
    }

    /// Takes the next step. Past the last beat the walk restarts at beat 0
    /// (the selection is ignored); otherwise `selection` names the move drawn
    /// for the next beat: `None` plays it, `Some(i)` jumps along its branch `i`.
    /// Returns `None`, changing nothing, when the graph has no beats or the
    /// selected move is closed.
    pub fn commit(&mut self, selection: Option<usize>) -> (step: Option<Step>)
        requires
            view_wf(old(self)@),
            use_count_has_room(old(self)@, selection),
        ensures
            view_wf(final(self)@),
            match commit_of(old(self)@, selection) {
                Some((after, taken)) => step == Some(taken) && final(self)@ == after,
                None => step is None && final(self)@ == old(self)@,
            },
    {
        let ghost before = self@;
        match self.upcoming() {
            Upcoming::Finished => None,
            Upcoming::Restart => {
                let previous = self.current;
                self.current = Some(0);
                Some(Step { beat: 0, jumped_from: previous })
            },
            Upcoming::From(source) => {
                assert(before.branches[source as int] == self.graph.branches@[source as int]@);
                match selection {
                    None => {
                        let count = self.graph.branches[source].len();
                        if !(count == 0 || self.loop_exit != Some(source)) {
                            return None;
                        }
                        let uses = self.sequential_uses[source];
                        self.sequential_uses.set(source, uses + 1);
                        self.current = Some(source);
                        proof {
                            let expected = commit_of(before, selection).unwrap().0;
                            assert(self@.sequential_uses =~= expected.sequential_uses);
                            assert(self@.branch_uses =~= expected.branch_uses);
                        }
                        Some(Step { beat: source, jumped_from: None })
                    },
                    Some(index) => {
                        if index >= self.graph.branches[source].len() || !self.is_branch_open(
                            source,
                            index,
                        ) {
                            return None;
                        }
                        let destination = self.graph.branches[source][index].destination;
                        assert(before.branch_uses[source as int]
                            == self.branch_uses@[source as int]@);
                        let mut uses_row = self.branch_uses[source].clone();
                        let uses = uses_row[index];
                        uses_row.set(index, uses + 1);
                        self.branch_uses.set(source, uses_row);
                        self.current = Some(destination);
                        proof {
                            let expected = commit_of(before, selection).unwrap().0;
                            assert(self@.branch_uses[source as int] =~= expected.branch_uses[source as int]);
                            assert forall|u: int| 0 <= u < self@.branch_uses.len() implies #[trigger] self@.branch_uses[u]
                                == expected.branch_uses[u] by {
                                if u != source {
                                    assert(self@.branch_uses[u] == before.branch_uses[u]);
                                }
                            }
                            assert(self@.branch_uses =~= expected.branch_uses);
                            assert(self@.sequential_uses =~= expected.sequential_uses);
                            assert forall|u: int| 0 <= u < self@.branches.len() implies #[trigger] self@.branch_uses[u].len()
                                == self@.branches[u].len() by {
                                if u != source {
                                    assert(self@.branch_uses[u] == before.branch_uses[u]);
                                }
                            }
                        }
                        Some(Step { beat: destination, jumped_from: Some(source) })
                    },
                }
            },
        }
    }
}

/// The walk never runs past the end of the song: every step lands on a beat
/// of the graph, becomes the current beat, and leaves the planner consistent.
pub proof fn lemma_steps_stay_in_song(v: PlannerView, selection: Option<usize>)
    requires
        view_wf(v),
        commit_of(v, selection) is Some,
    ensures
        ({
            let (after, step) = commit_of(v, selection).unwrap();
            &&& step.beat < v.branches.len()
            &&& after.current == Some(step.beat)
            &&& view_wf(after)
        }),
{
    let (after, step) = commit_of(v, selection).unwrap();
    if let Upcoming::From(s) = upcoming_of(v) {
        if let Some(i) = selection {
            assert(v.branches[s as int][i as int].destination < v.branches.len());
            assert forall|u: int| 0 <= u < after.branches.len() implies #[trigger] after.branch_uses[u].len()
                == after.branches[u].len() by {
                if u != s {
                    assert(after.branch_uses[u] == v.branch_uses[u]);
                }
            }
        }
    }
}

/// Once playback is before the loop exit it stays before it: no step, jump or
/// sequential, reaches or passes the exit, so the outro after it is never
/// heard.
pub proof fn lemma_exit_is_never_skipped(v: PlannerView, selection: Option<usize>, exit: usize)
    requires
        view_wf(v),
        v.loop_exit == Some(exit),
        v.current matches Some(c) ==> c < exit,
        commit_of(v, selection) is Some,
    ensures
        commit_of(v, selection).unwrap().1.beat < exit,
        commit_of(v, selection).unwrap().0.current == Some(commit_of(v, selection).unwrap().1.beat),
{
    assert(has_qualified_backward(v.branches, v.threshold, exit as int));
    let j = choose|j: int|
        0 <= j < v.branches[exit as int].len() && v.branches[exit as int][j].destination < exit
            && distance_le(v.branches[exit as int][j].distance, v.threshold);
    assert(exit >= 1);
    assert(upcoming_of(v) != Upcoming::Restart);
}

proof fn lemma_commit_keeps_wf(v: PlannerView, selection: Option<usize>)
    requires
        view_wf(v),
        commit_of(v, selection) is Some,
    ensures
        view_wf(commit_of(v, selection).unwrap().0),
{
    let after = commit_of(v, selection).unwrap().0;
    if let Upcoming::From(s) = upcoming_of(v) {
        if let Some(i) = selection {
            assert forall|u: int| 0 <= u < after.branches.len() implies #[trigger] after.branch_uses[u].len()
                == after.branches[u].len() by {
                if u != s {
                    assert(after.branch_uses[u] == v.branch_uses[u]);
                }
            }
            assert(v.branches[s as int][i as int].destination < v.branches.len());
        }
    }
}

/// The planner after committing `selections` one after another from `v`,
/// with the steps taken; `None` once a selection is closed.
pub open spec fn walk_of(v: PlannerView, selections: Seq<Option<usize>>) -> Option<
    (PlannerView, Seq<Step>),
>
    decreases selections.len(),
{
    if selections.len() == 0 {
        Some((v, Seq::empty()))
    } else {
        match walk_of(v, selections.drop_last()) {
            None => None,
            Some((w, steps)) => match commit_of(w, selections.last()) {
                None => None,
                Some((next, step)) => Some((next, steps.push(step))),
            },
        }
    }
}

/// A walk never plays past its last safe exit: from a fresh planner whose
/// graph has a loop exit, every step of any walk lands before the exit, and
/// the walk never reaches the restart at the end of the track (the outro is
/// never played). Applied to every prefix of a walk, this covers each of its
/// states.
pub proof fn lemma_walk_stays_before_the_exit(
    v: PlannerView,
    selections: Seq<Option<usize>>,
    exit: usize,
)
    requires
        view_wf(v),
        v.loop_exit == Some(exit),
        v.current is None,
        walk_of(v, selections) is Some,
    ensures
        ({
            let (after, steps) = walk_of(v, selections).unwrap();
            &&& view_wf(after)
            &&& after.branches == v.branches
            &&& after.threshold == v.threshold
            &&& after.loop_exit == v.loop_exit
            &&& after.current matches Some(c) ==> c < exit
            &&& upcoming_of(after) != Upcoming::Restart
            &&& steps.len() == selections.len()
            &&& forall|k: int| 0 <= k < steps.len() ==> #[trigger] steps[k].beat < exit
        }),
    decreases selections.len(),
{
    assert(has_qualified_backward(v.branches, v.threshold, exit as int));
    let j = choose|j: int|
        0 <= j < v.branches[exit as int].len() && v.branches[exit as int][j].destination < exit
            && distance_le(v.branches[exit as int][j].distance, v.threshold);
    assert(exit >= 1);
    if selections.len() > 0 {
        let rest = selections.drop_last();
        assert(walk_of(v, rest) is Some);
        lemma_walk_stays_before_the_exit(v, rest, exit);
        let (w, steps) = walk_of(v, rest).unwrap();
        let sel = selections.last();
        lemma_exit_is_never_skipped(w, sel, exit);
        lemma_commit_keeps_wf(w, sel);
        let (next, step) = commit_of(w, sel).unwrap();
        assert(walk_of(v, selections) == Some((next, steps.push(step))));
        assert forall|k: int| 0 <= k < steps.len() + 1 implies #[trigger] steps.push(step)[k].beat
            < exit by {
            if k < steps.len() {
                assert(steps.push(step)[k] == steps[k]);
            }
        }
    }
}

/// Which branches the walk may take: away from the loop exit a branch is
/// open whatever its distance, unless it jumps from before the exit to the
/// exit or beyond; at the loop exit a branch is open exactly when its
/// distance is within the threshold (and it does not skip the exit).
pub proof fn lemma_branch_openness(v: PlannerView, source: usize, j: int)
    requires
        view_wf(v),
        upcoming_of(v) == Upcoming::From(source),
        0 <= j < v.branches[source as int].len(),
    ensures
        choices_of(v)[j + 1].branch == Some(j as usize),
        choices_of(v)[j + 1].destination == v.branches[source as int][j].destination,
        v.loop_exit != Some(source) && !(v.loop_exit matches Some(e) && source <= e
            && v.branches[source as int][j].destination >= e) ==> choices_of(v)[j + 1].open,
        v.loop_exit matches Some(e) && source < e && v.branches[source as int][j].destination
            >= e ==> !choices_of(v)[j + 1].open,
        v.loop_exit == Some(source) ==> (choices_of(v)[j + 1].open <==> (v.branches[source as int][j].destination
            < source && !distance_gt(v.branches[source as int][j].distance, v.threshold))),
        v.loop_exit == Some(source) && distance_le(v.branches[source as int][j].distance, v.threshold)
            && v.branches[source as int][j].destination < source ==> choices_of(v)[j + 1].open,
{
    assert(choices_of(v)[j + 1] == branch_choice(v, source as int, j));
}

/// Some move is always open, so the weighted draw never faces an empty total:
/// at the loop exit the qualified backward branch is open, elsewhere
/// sequential playback is.
pub proof fn lemma_a_move_is_open(v: PlannerView, source: usize)
    requires
        view_wf(v),
        upcoming_of(v) == Upcoming::From(source),
    ensures
        exists|k: int| 0 <= k < choices_of(v).len() && (#[trigger] choices_of(v)[k]).open,
{
    let choices = choices_of(v);
    if sequential_open(v, source as int) {
        assert(choices[0].open);
    } else {
        let j = choose|j: int|
            0 <= j < v.branches[source as int].len() && v.branches[source as int][j].destination
                < source && distance_le(v.branches[source as int][j].distance, v.threshold);
        assert(branch_open(v, source as int, j));
        assert(choices[j + 1] == branch_choice(v, source as int, j));
        assert(choices[j + 1].open);
    }
}

/// The offered choices are exactly the moves a step can take: a selection
/// is accepted precisely when its choice is open, and the step lands on that
/// choice's destination, sequentially or as a jump from its source.
pub proof fn lemma_choices_match_steps(v: PlannerView, selection: Option<usize>)
    requires
        view_wf(v),
        upcoming_of(v) is From,
    ensures
        ({
            let choices = choices_of(v);
            let k: int = match selection {
                None => 0,
                Some(i) => i + 1,
            };
            &&& (commit_of(v, selection) is Some) == (k < choices.len() && choices[k].open)
            &&& commit_of(v, selection) is Some ==> {
                let step = commit_of(v, selection).unwrap().1;
                &&& step.beat == choices[k].destination
                &&& (step.jumped_from is None) == choices[k].is_sequential
                &&& !choices[k].is_sequential ==> step.jumped_from == Some(choices[k].source)
            }
        }),
{
    let s = upcoming_of(v)->From_0;
    let choices = choices_of(v);
    if let Some(i) = selection {
        if i < v.branches[s as int].len() {
            assert(choices[i + 1] == branch_choice(v, s as int, i as int));
        }
    }
}

/// Restarting at the end keeps all usage counts: the next traversal still
/// prefers the routes that were used less.
pub proof fn lemma_restart_keeps_history(v: PlannerView, selection: Option<usize>)
    requires
        view_wf(v),
        upcoming_of(v) == Upcoming::Restart,
    ensures
        ({
            let (after, step) = commit_of(v, selection).unwrap();
            &&& step == Step { beat: 0, jumped_from: v.current }
            &&& after.sequential_uses == v.sequential_uses
            &&& after.branch_uses == v.branch_uses
            &&& after.current == Some(0usize)
        }),
{
}

/// Every step records exactly one use: the sequential count of the source
/// or the count of the branch taken; all other counts are unchanged.
pub proof fn lemma_step_records_its_use(v: PlannerView, selection: Option<usize>, source: usize)
    requires
        view_wf(v),
        upcoming_of(v) == Upcoming::From(source),
        commit_of(v, selection) is Some,
        use_count_has_room(v, selection),
    ensures
        ({
            let after = commit_of(v, selection).unwrap().0;
            match selection {
                None => {
                    &&& after.sequential_uses[source as int] == v.sequential_uses[source as int] + 1
                    &&& forall|u: int| 0 <= u < v.sequential_uses.len() && u != source ==> #[trigger] after.sequential_uses[u] == v.sequential_uses[u]
                    &&& after.branch_uses == v.branch_uses
                },
                Some(i) => {
                    &&& after.branch_uses[source as int][i as int] == v.branch_uses[source as int][i as int] + 1
                    &&& forall|u: int, j: int| 0 <= u < v.branch_uses.len() && 0 <= j < v.branch_uses[u].len() && (u, j) != (source as int, i as int) ==> #[trigger] after.branch_uses[u][j] == v.branch_uses[u][j]
                    &&& after.sequential_uses == v.sequential_uses
                },
            }
        }),
{
}

/// Use never closes a move: the moves offered, and which of them are open,
/// depend on the graph, the loop exit and the position alone, not on how
/// often any move was used.
pub proof fn lemma_use_never_closes_a_move(v: PlannerView, w: PlannerView)
    requires
        v.branches == w.branches,
        v.threshold == w.threshold,
        v.loop_exit == w.loop_exit,
        v.current == w.current,
    ensures
        choices_of(v) == choices_of(w),
{
    if let Upcoming::From(s) = upcoming_of(v) {
        assert(Seq::new(v.branches[s as int].len(), |i: int| branch_choice(v, s as int, i))
            =~= Seq::new(w.branches[s as int].len(), |i: int| branch_choice(w, s as int, i)));
    }
}

/// The coverage of a destination is judged over the beats within
/// `beat_count / COVERAGE_WINDOW_DIVISOR` of it (at least two), roughly five
/// percent of the track.
pub const COVERAGE_WINDOW_DIVISOR: usize = 20;

/// Reach of the coverage window on each side of its centre.
pub open spec fn coverage_radius(beat_count: int) -> int {
    if beat_count / COVERAGE_WINDOW_DIVISOR as int > 2 {
        beat_count / COVERAGE_WINDOW_DIVISOR as int
    } else {
        2
    }
}

/// The beats over which the coverage of `destination` is judged, as the
/// range from `start` up to `end`: those within the coverage radius of it,
/// cut to the track.
pub fn coverage_window(destination: usize, beat_count: usize) -> (window: (usize, usize))
    requires
        destination + coverage_radius(beat_count as int) + 1 <= usize::MAX,
    ensures
        window.0 == if destination > coverage_radius(beat_count as int) {
            destination - coverage_radius(beat_count as int)
        } else {
            0
        },
        window.1 == if destination + coverage_radius(beat_count as int) + 1 < beat_count {
            destination + coverage_radius(beat_count as int) + 1
        } else {
            beat_count as int
        },
{
    let share = beat_count / COVERAGE_WINDOW_DIVISOR;
    let radius = if share > 2 {
        share
    } else {
        2
    };
    let start = if destination > radius {
        destination - radius
    } else {
        0
    };
    let reach = destination + radius + 1;
    let end = if reach < beat_count {
        reach
    } else {
        beat_count
    };
    (start, end)
}

} // verus!
