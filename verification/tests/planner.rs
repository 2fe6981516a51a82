use eternal::graph::{Branch, BranchGraph};
use eternal::planner::{
    COVERAGE_WINDOW_DIVISOR, Choice, PlaybackPlanner, Step, Upcoming, coverage_window,
};

/// Order key of a distance: its position in the total order of `f32`.
fn key(distance: f32) -> u32 {
    let bits = distance.to_bits();
    if bits & 0x8000_0000 != 0 {
        !bits
    } else {
        bits | 0x8000_0000
    }
}

fn branch(destination: usize, distance: f32) -> Branch {
    Branch {
        destination,
        distance: key(distance),
    }
}

fn selection(choice: &Choice) -> Option<usize> {
    choice.branch
}

/// Walks `steps` steps, taking the open choices in rotation.
fn walk(planner: &mut PlaybackPlanner, steps: usize) -> Vec<Step> {
    let mut taken = Vec::new();
    for round in 0..steps {
        let choices = planner.next_choices();
        let open: Vec<&Choice> = choices.iter().filter(|choice| choice.open).collect();
        assert!(!open.is_empty());
        let choice = open[round % open.len()];
        let step = planner.commit(selection(choice)).unwrap();
        assert_eq!(step.beat, choice.destination);
        assert_eq!(choice.is_sequential, step.jumped_from.is_none());
        taken.push(step);
    }
    taken
}

#[test]
fn planner_never_runs_past_the_end() {
    let graph = BranchGraph {
        branches: vec![vec![], vec![], vec![branch(0, 0.0)]],
        threshold: key(0.0),
        last_branch_point: 2,
    };
    let mut planner = PlaybackPlanner::from_graph(graph);
    let steps = walk(&mut planner, 100);
    assert_eq!(steps.len(), 100);
    assert!(steps.iter().all(|step| step.beat < 3));
}

#[test]
fn final_exit_rejects_forward_and_relaxed_edges_even_when_overplayed() {
    let graph = BranchGraph {
        branches: vec![
            vec![],
            vec![branch(0, 0.1), branch(2, 0.05), branch(0, 0.3)],
            vec![],
        ],
        threshold: key(0.2),
        last_branch_point: 1,
    };
    let mut planner = PlaybackPlanner::from_graph(graph);
    assert_eq!(planner.loop_exit(), Some(1));
    // Overplay the exit first: use never reopens the closed moves.
    walk(&mut planner, 1_000);
    let exit_uses = planner.branch_uses(1, 0);
    assert!(exit_uses > 0);
    assert!(planner.continue_from(0));
    let choices = planner.next_choices();
    assert_eq!(choices.len(), 4);
    assert_eq!(
        choices.iter().map(|choice| choice.open).collect::<Vec<_>>(),
        vec![false, true, false, false]
    );
    assert_eq!(planner.commit(None), None);
    assert_eq!(planner.commit(Some(1)), None);
    assert_eq!(planner.commit(Some(2)), None);
    assert_eq!(planner.commit(Some(9)), None);
    assert_eq!(
        planner.commit(Some(0)),
        Some(Step {
            beat: 0,
            jumped_from: Some(1)
        })
    );
    assert_eq!(planner.branch_uses(1, 0), exit_uses + 1);
}

#[test]
fn forward_jumps_cannot_skip_the_last_safe_exit() {
    let graph = BranchGraph {
        branches: vec![
            vec![branch(2, 0.1), branch(3, 0.1)],
            vec![],
            vec![branch(0, 0.1)],
            vec![],
        ],
        threshold: key(0.2),
        last_branch_point: 2,
    };
    let mut planner = PlaybackPlanner::from_graph(graph);
    for step in walk(&mut planner, 1_000) {
        assert!(step.beat < 2);
    }
}

#[test]
fn missing_quality_qualified_exit_keeps_sequential_fallback() {
    for branches in [
        vec![vec![]; 3],
        vec![vec![], vec![branch(0, 0.3)], vec![]],
    ] {
        let graph = BranchGraph {
            branches,
            threshold: key(0.2),
            last_branch_point: 1,
        };
        let mut planner = PlaybackPlanner::from_graph(graph);
        assert_eq!(planner.loop_exit(), None);
        assert!(planner.continue_from(0));
        assert!(planner.next_choices()[0].open);
        assert!(walk(&mut planner, 1_000).iter().any(|step| step.beat == 2));
    }
}

#[test]
fn qualified_final_exit_prevents_the_outro() {
    let graph = BranchGraph {
        branches: vec![vec![], vec![branch(0, 0.0)], vec![]],
        threshold: key(0.0),
        last_branch_point: 1,
    };
    let mut planner = PlaybackPlanner::from_graph(graph);
    assert!(walk(&mut planner, 100).iter().all(|step| step.beat != 2));
}

#[test]
fn end_of_track_restarts_at_zero_and_keeps_counts() {
    let graph = BranchGraph {
        branches: vec![vec![], vec![], vec![]],
        threshold: key(0.0),
        last_branch_point: 0,
    };
    let mut planner = PlaybackPlanner::from_graph(graph);
    assert_eq!(planner.upcoming(), Upcoming::From(0));
    let steps = walk(&mut planner, 4);
    assert_eq!(
        steps,
        vec![
            Step { beat: 0, jumped_from: None },
            Step { beat: 1, jumped_from: None },
            Step { beat: 2, jumped_from: None },
            Step { beat: 0, jumped_from: Some(2) },
        ]
    );
    assert_eq!(planner.sequential_uses(0), 1);
    assert_eq!(planner.sequential_uses(2), 1);
    assert_eq!(planner.upcoming(), Upcoming::From(1));
    let choices = planner.next_choices();
    assert_eq!(choices.len(), 1);
    assert!(choices[0].is_sequential && choices[0].open);
}

#[test]
fn restart_choice_names_the_last_beat() {
    let graph = BranchGraph {
        branches: vec![vec![], vec![]],
        threshold: key(0.0),
        last_branch_point: 0,
    };
    let mut planner = PlaybackPlanner::from_graph(graph);
    assert!(planner.continue_from(1));
    assert_eq!(planner.upcoming(), Upcoming::Restart);
    assert_eq!(
        planner.next_choices(),
        vec![Choice {
            source: 1,
            destination: 0,
            branch: None,
            is_sequential: false,
            open: true,
        }]
    );
    assert!(!planner.continue_from(2));
    assert_eq!(planner.current(), Some(1));
}

#[test]
fn empty_graph_plans_nothing() {
    let graph = BranchGraph {
        branches: vec![],
        threshold: key(0.0),
        last_branch_point: 0,
    };
    let mut planner = PlaybackPlanner::from_graph(graph);
    assert_eq!(planner.upcoming(), Upcoming::Finished);
    assert!(planner.next_choices().is_empty());
    assert_eq!(planner.commit(None), None);
    assert!(!planner.continue_from(0));
}

#[test]
fn coverage_is_judged_over_five_percent_of_the_track() {
    assert_eq!(COVERAGE_WINDOW_DIVISOR, 20);
    // 200 beats: ten beats either side.
    assert_eq!(coverage_window(50, 200), (40, 61));
    assert_eq!(coverage_window(5, 200), (0, 16));
    assert_eq!(coverage_window(195, 200), (185, 200));
    // Short tracks still look two beats either side.
    assert_eq!(coverage_window(3, 10), (1, 6));
    assert_eq!(coverage_window(0, 1), (0, 1));
}

#[test]
fn use_never_closes_a_move() {
    let graph = BranchGraph {
        branches: vec![
            vec![],
            vec![branch(0, 0.1)],
            vec![branch(0, 0.1), branch(1, 0.1)],
            vec![],
            vec![],
        ],
        threshold: key(0.2),
        last_branch_point: 2,
    };
    let mut fresh = PlaybackPlanner::from_graph(graph.clone());
    let mut used = PlaybackPlanner::from_graph(graph);
    walk(&mut used, 500);
    for beat in 0..5 {
        assert!(fresh.continue_from(beat));
        assert!(used.continue_from(beat));
        assert_eq!(fresh.next_choices(), used.next_choices());
    }
}
