use eternal::graph::{Branch, BranchGraph};
use eternal::planner::{Choice, PlaybackPlanner, Step};
use eternal::simulation::{RECENT_WINDOW, Simulation};

/// Order key of a distance: its position in the total order of `f32`.
fn key(distance: f32) -> u32 {
    let bits = distance.to_bits();
    if bits & 0x8000_0000 != 0 {
        !bits
    } else {
        bits | 0x8000_0000
    }
}

/// Plans `steps` beats on a graph whose walk is forced (one open choice at
/// every step, so that no weighting or seed can change it) and tallies them.
fn simulate(graph: &BranchGraph, steps: usize) -> Simulation {
    let mut planner = PlaybackPlanner::from_graph(graph.clone());
    let mut simulation = Simulation::new(graph.branches.len());
    for _ in 0..steps {
        let choices = planner.next_choices();
        let open: Vec<&Choice> = choices.iter().filter(|choice| choice.open).collect();
        if open.is_empty() {
            break;
        }
        assert_eq!(open.len(), 1, "the walk on this graph is forced");
        let step = planner.commit(open[0].branch).unwrap();
        simulation.record(step);
    }
    simulation
}

fn step(beat: usize, jumped_from: Option<usize>) -> Step {
    Step { beat, jumped_from }
}

#[test]
fn final_beat_replacement_is_a_jump_not_a_restart() {
    let mut sim = Simulation::new(3);
    for planned in [step(0, None), step(1, None), step(0, Some(2))] {
        sim.record(planned);
    }
    assert_eq!(sim.wraps, 0);
    assert_eq!(sim.jumps, 1);
    assert_eq!(sim.backward, 1);
    assert_eq!(sim.visits, vec![2, 1, 0]);
}

#[test]
fn playing_the_last_beat_then_beat_zero_is_a_restart() {
    let mut sim = Simulation::new(3);
    for planned in [
        step(0, None),
        step(1, None),
        step(2, None),
        step(0, Some(2)),
        step(1, None),
    ] {
        sim.record(planned);
    }
    assert_eq!(sim.wraps, 1);
    assert_eq!(sim.jumps, 0);
    assert_eq!(sim.previous_beat, Some(1));
}

#[test]
fn long_backward_jumps_span_a_quarter_of_the_track() {
    let mut sim = Simulation::new(40);
    sim.record(step(30, Some(39)));
    sim.record(step(5, Some(20)));
    sim.record(step(35, Some(10)));
    assert_eq!(sim.jumps, 3);
    assert_eq!(sim.backward, 2);
    assert_eq!(sim.long_backward, 1);
}

#[test]
fn confinement_needs_a_full_window_in_a_small_range() {
    let mut sim = Simulation::new(24);
    for round in 0..RECENT_WINDOW + 5 {
        sim.record(step(round % 4, None));
    }
    assert_eq!(sim.recent.len(), RECENT_WINDOW);
    assert_eq!(sim.local_run, 6);
    assert_eq!(sim.longest_local_run, 6 + RECENT_WINDOW - 1);
    sim.record(step(20, None));
    assert_eq!(sim.local_run, 0);
    assert_eq!(sim.longest_local_run, 6 + RECENT_WINDOW - 1);
}

#[test]
fn visit_counts_saturate() {
    let mut sim = Simulation::new(2);
    sim.visits[1] = u32::MAX;
    sim.record(step(1, None));
    assert_eq!(sim.visits[1], u32::MAX);
}

#[test]
fn final_beat_replacement_is_not_counted_as_a_restart() {
    let graph = BranchGraph {
        branches: vec![
            vec![],
            vec![],
            vec![Branch {
                destination: 0,
                distance: key(0.1),
            }],
        ],
        threshold: key(0.2),
        last_branch_point: 2,
    };
    let simulation = simulate(&graph, 100);
    assert_eq!(simulation.wraps, 0);
    assert!(simulation.jumps > 0);
    assert_eq!(simulation.visits[2], 0);
}

#[test]
fn missing_exits_are_counted_as_physical_restarts() {
    let graph = BranchGraph {
        branches: vec![vec![]; 3],
        threshold: key(0.0),
        last_branch_point: 0,
    };
    let simulation = simulate(&graph, 10);
    assert_eq!(simulation.wraps, 3);
    assert_eq!(simulation.jumps, 0);
}

#[test]
fn coverage_totals_and_quarters_count_visits() {
    let mut sim = Simulation::new(8);
    sim.visits = vec![0, 3, 0, 5, 1, 0, 0, 2];
    assert_eq!(sim.covered_beats(), 4);
    assert_eq!(sim.total_visits(), 11);
    assert_eq!(sim.quarter_visits(), vec![3, 5, 1, 2]);
    // Ten beats split into quarters of two, three, two and three beats.
    let mut sim = Simulation::new(10);
    sim.visits = vec![1, 1, 2, 2, 2, 3, 3, 4, 4, 4];
    assert_eq!(sim.quarter_visits(), vec![2, 6, 6, 12]);
}

#[test]
fn hot_window_is_the_last_of_the_most_visited() {
    let mut sim = Simulation::new(40);
    sim.visits[5] = 10;
    sim.visits[25] = 10;
    // A twentieth of 40 beats is two, so the window is eight beats wide.
    assert_eq!(sim.hot_window(), (25, 8, 10));
    sim.visits[6] = 1;
    assert_eq!(sim.hot_window(), (5, 8, 11));
    let mut short = Simulation::new(5);
    short.visits = vec![1, 2, 3, 4, 5];
    assert_eq!(short.hot_window(), (0, 5, 15));
    let wide = Simulation::new(400);
    assert_eq!(wide.hot_window(), (380, 20, 0));
    assert_eq!(Simulation::new(0).hot_window(), (0, 0, 0));
}
