use eternal::graph::{
    Branch, BranchConfig, BranchGraph, ZERO_DISTANCE, adaptive_threshold, best_last_branch,
    distance_at_most, distance_exceeds, ensure_long_backward_branch, nearest_candidates,
    remove_end_traps,
};

/// Order key of a distance: its position in the total order of `f32`.
fn key(distance: f32) -> u32 {
    let bits = distance.to_bits();
    if bits & 0x8000_0000 != 0 {
        !bits
    } else {
        bits | 0x8000_0000
    }
}

fn branch(destination: usize, distance: f32) -> Branch {
    Branch {
        destination,
        distance: key(distance),
    }
}

#[test]
fn zero_distance_is_the_key_of_zero() {
    assert_eq!(key(0.0), ZERO_DISTANCE);
    assert!(key(-1.0) < key(-0.0));
    assert!(key(-0.0) < key(0.0));
    assert!(key(0.0) < key(f32::MIN_POSITIVE));
    assert!(key(0.5) < key(2.0));
}

#[test]
fn graph_contains_a_backward_escape() {
    // Beats share their chroma with every beat at the same bar position, so
    // every comparable pair is at distance zero.
    let beats = 24;
    let distances = vec![vec![key(0.0); beats]; beats];
    let target = (beats as f32 * (1.0 / 6.0)).ceil() as usize;
    let graph = BranchGraph::build(&distances, &BranchConfig::default(), target);
    assert!(
        graph
            .branches
            .iter()
            .enumerate()
            .any(|(source, items)| { items.iter().any(|branch| branch.destination < source) })
    );
}

#[test]
fn nearest_candidates_are_sorted_separated_and_aligned() {
    let distances: Vec<u32> = [0.9, 0.1, 0.5, 0.4, 0.3, 0.8, 0.2, 0.7, 0.3, 0.6, 0.2, 0.1, 0.4]
        .iter()
        .map(|value| key(*value))
        .collect();
    let config = BranchConfig {
        maximum_branches: 2,
        minimum_separation: 4,
        threshold: None,
    };
    // Source 5 compares with beats 1 and 9 (bar position 1, at least four
    // beats away).
    assert_eq!(
        nearest_candidates(&distances, &config, 5),
        vec![branch(1, 0.1), branch(9, 0.6)]
    );
    // Source 2 compares with 6 and 10, both at 0.2: ties go to the lower index.
    assert_eq!(
        nearest_candidates(&distances, &config, 2),
        vec![branch(6, 0.2), branch(10, 0.2)]
    );
    // Source 0 compares with 4, 8 and 12; only the two closest remain.
    assert_eq!(
        nearest_candidates(&distances, &config, 0),
        vec![branch(4, 0.3), branch(8, 0.3)]
    );
    let none = BranchConfig {
        maximum_branches: 0,
        ..config
    };
    assert!(nearest_candidates(&distances, &none, 0).is_empty());
}

#[test]
fn adaptive_threshold_takes_the_target_rank() {
    let candidates = vec![
        vec![branch(4, 0.5), branch(8, 0.9)],
        vec![],
        vec![branch(6, 0.2)],
        vec![branch(7, 0.7)],
        vec![branch(0, 0.1)],
    ];
    assert_eq!(adaptive_threshold(&candidates, 1), key(0.1));
    assert_eq!(adaptive_threshold(&candidates, 2), key(0.2));
    assert_eq!(adaptive_threshold(&candidates, 3), key(0.5));
    assert_eq!(adaptive_threshold(&candidates, 4), key(0.7));
    assert_eq!(adaptive_threshold(&candidates, 40), key(0.7));
    assert_eq!(adaptive_threshold(&candidates, 0), key(0.1));
    assert_eq!(adaptive_threshold(&vec![vec![], vec![]], 3), ZERO_DISTANCE);
}

#[test]
fn longest_backward_candidate_is_kept() {
    let candidates = vec![
        vec![],
        vec![],
        vec![branch(0, 0.5)],
        vec![],
        vec![],
        vec![branch(1, 0.9), branch(3, 0.1)],
        vec![branch(2, 0.2)],
    ];
    let mut branches = vec![vec![]; 7];
    ensure_long_backward_branch(&candidates, &mut branches);
    // Spans: 2→0 is 2, 5→1 is 4, 6→2 is 4 at a smaller distance.
    assert_eq!(branches[6], vec![branch(2, 0.2)]);
    assert!(branches.iter().enumerate().all(|(source, row)| source == 6 || row.is_empty()));
    // An existing branch to the same destination is not duplicated.
    let mut branches = vec![vec![]; 7];
    branches[6] = vec![branch(2, 0.2)];
    ensure_long_backward_branch(&candidates, &mut branches);
    assert_eq!(branches[6].len(), 1);
    // Without backward candidates nothing changes.
    let forward = vec![vec![branch(4, 0.1)], vec![], vec![], vec![], vec![]];
    let mut branches = vec![vec![]; 5];
    ensure_long_backward_branch(&forward, &mut branches);
    assert!(branches.iter().all(Vec::is_empty));
}

#[test]
fn end_traps_are_removed_before_the_last_branch_point() {
    let mut branches = vec![
        vec![branch(5, 0.1), branch(2, 0.1)],
        vec![],
        vec![branch(4, 0.1)],
        vec![branch(0, 0.1), branch(6, 0.1)],
        vec![],
        vec![branch(1, 0.1)],
        vec![],
    ];
    let point = best_last_branch(&branches);
    assert_eq!(point, 5);
    remove_end_traps(&mut branches, point);
    assert_eq!(branches[0], vec![branch(2, 0.1)]);
    assert_eq!(branches[2], vec![branch(4, 0.1)]);
    assert_eq!(branches[3], vec![branch(0, 0.1)]);
    assert_eq!(branches[5], vec![branch(1, 0.1)]);
    assert_eq!(best_last_branch(&vec![vec![branch(3, 0.1)], vec![]]), 0);
}

#[test]
fn fixed_threshold_filters_candidates() {
    let beats = 12;
    let mut distances = vec![vec![key(1.0); beats]; beats];
    distances[8][0] = key(0.1);
    distances[9][1] = key(0.4);
    let config = BranchConfig {
        maximum_branches: 1,
        minimum_separation: 4,
        threshold: Some(key(0.2)),
    };
    let graph = BranchGraph::build(&distances, &config, 1);
    assert_eq!(graph.threshold, key(0.2));
    assert_eq!(graph.branches.len(), beats);
    assert_eq!(graph.branches[8], vec![branch(0, 0.1)]);
    assert!(graph.branches[9].is_empty());
    assert_eq!(graph.last_branch_point, 8);
    assert_eq!(graph.branch_count(), 1);
}

#[test]
fn empty_analysis_gives_an_empty_graph() {
    let config = BranchConfig {
        threshold: Some(key(0.3)),
        ..BranchConfig::default()
    };
    let graph = BranchGraph::build(&vec![], &config, 1);
    assert!(graph.branches.is_empty());
    assert_eq!(graph.threshold, ZERO_DISTANCE);
    assert_eq!(graph.last_branch_point, 0);
    assert_eq!(graph.branch_count(), 0);
}

/// Eight beats; same-position pairs sit four beats apart.
fn eight_beat_distances() -> Vec<Vec<u32>> {
    let mut distances = vec![vec![key(1.0); 8]; 8];
    distances[0][4] = key(0.1);
    distances[4][0] = key(0.9);
    distances[5][1] = key(0.8);
    distances
}

#[test]
fn only_the_escape_exceeds_a_fixed_threshold() {
    let config = BranchConfig {
        maximum_branches: 1,
        minimum_separation: 4,
        threshold: Some(key(0.2)),
    };
    let graph = BranchGraph::build(&eight_beat_distances(), &config, 1);
    // 0→4 is within the threshold; 5→1 is the longest backward escape (four
    // beats, closer than 4→0, 6→2 and 7→3) and is kept beyond it.
    assert_eq!(graph.branches[0], vec![branch(4, 0.1)]);
    assert_eq!(graph.branches[5], vec![branch(1, 0.8)]);
    assert_eq!(graph.branch_count(), 2);
    assert_eq!(graph.last_branch_point, 5);
}

#[test]
fn a_lower_threshold_admits_fewer_matches() {
    let config = BranchConfig {
        maximum_branches: 1,
        minimum_separation: 4,
        threshold: Some(key(0.05)),
    };
    let graph = BranchGraph::build(&eight_beat_distances(), &config, 1);
    assert!(graph.branches[0].is_empty());
    assert_eq!(graph.branches[5], vec![branch(1, 0.8)]);
    assert_eq!(graph.branch_count(), 1);
}

#[test]
fn thresholds_compare_distances_as_numbers() {
    // Negative zero admits a zero distance, as floating-point `<=` does.
    assert!(distance_at_most(key(0.0), key(-0.0)));
    assert!(distance_at_most(key(-0.0), key(0.0)));
    assert!(!distance_exceeds(key(0.0), key(-0.0)));
    assert!(distance_at_most(key(0.1), key(0.2)));
    assert!(!distance_at_most(key(0.3), key(0.2)));
    assert!(distance_exceeds(key(0.3), key(0.2)));
    // A NaN is neither within nor beyond any threshold.
    for nan in [f32::NAN, -f32::NAN] {
        assert!(!distance_at_most(key(nan), key(1.0)));
        assert!(!distance_at_most(key(0.1), key(nan)));
        assert!(!distance_exceeds(key(nan), key(1.0)));
        assert!(!distance_exceeds(key(0.1), key(nan)));
    }
    assert!(distance_at_most(key(f32::NEG_INFINITY), key(f32::INFINITY)));

    // Twelve beats: the longest escape spans eight beats, so 4→0 is kept
    // only by the threshold.
    let mut distances = vec![vec![key(1.0); 12]; 12];
    distances[4][0] = key(0.0);
    let config = BranchConfig {
        maximum_branches: 1,
        minimum_separation: 4,
        threshold: Some(key(-0.0)),
    };
    let graph = BranchGraph::build(&distances, &config, 1);
    assert_eq!(graph.branches[4], vec![branch(0, 0.0)]);
}
