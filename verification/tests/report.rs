use eternal::graph::{Branch, BranchGraph};
use eternal::report::{
    BackwardEdge, RANKED_EDGES, Ranking, backward_edges_of, branching_sources, count_long,
    find_edge, summarize, top_ranked,
};

fn branch(destination: usize, distance: u32) -> Branch {
    Branch {
        destination,
        distance,
    }
}

fn edge(span: usize, distance: u32) -> BackwardEdge {
    BackwardEdge {
        span,
        source: 100,
        destination: 100 - span,
        distance,
    }
}

#[test]
fn backward_edges_are_listed_by_source() {
    let graph = BranchGraph {
        branches: vec![
            vec![branch(3, 7)],
            vec![],
            vec![branch(0, 5), branch(4, 1), branch(1, 9)],
            vec![branch(2, 2)],
        ],
        threshold: 10,
        last_branch_point: 3,
    };
    let edges = backward_edges_of(&graph);
    assert_eq!(
        edges,
        vec![
            BackwardEdge { span: 2, source: 2, destination: 0, distance: 5 },
            BackwardEdge { span: 1, source: 2, destination: 1, distance: 9 },
            BackwardEdge { span: 1, source: 3, destination: 2, distance: 2 },
        ]
    );
    assert_eq!(branching_sources(&graph), 3);
    assert_eq!(count_long(&edges, 2), 1);
    assert_eq!(count_long(&edges, 0), 3);
}

#[test]
fn longest_ranking_is_a_stable_sort_by_span() {
    let edges = vec![edge(3, 0), edge(9, 0), edge(3, 0), edge(12, 0), edge(9, 0)];
    assert_eq!(top_ranked(&edges, Ranking::Longest, 6), vec![3, 1, 4, 0, 2]);
    assert_eq!(top_ranked(&edges, Ranking::Longest, 2), vec![3, 1]);
    assert_eq!(top_ranked(&edges, Ranking::Longest, 0), Vec::<usize>::new());
}

#[test]
fn closest_long_ranking_breaks_ties_by_span_then_order() {
    let edges = vec![
        edge(30, 5),
        edge(10, 1),
        edge(25, 5),
        edge(40, 5),
        edge(25, 5),
        edge(26, 2),
    ];
    let ranked = top_ranked(&edges, Ranking::ClosestLong { min_span: 25 }, 6);
    assert_eq!(ranked, vec![5, 3, 0, 2, 4]);
}

#[test]
fn summary_names_at_most_six_of_each() {
    // Eight beats each jumping back to beat 0, spans 1 to 8, with distances
    // falling as the span grows.
    let mut branches = vec![vec![]];
    for source in 1..=8 {
        branches.push(vec![branch(0, 100 - source as u32)]);
    }
    let graph = BranchGraph {
        branches,
        threshold: 100,
        last_branch_point: 8,
    };
    let summary = summarize(&graph, 9);
    assert_eq!(RANKED_EDGES, 6);
    assert_eq!(summary.sources, 8);
    assert_eq!(summary.backward.len(), 8);
    // A quarter of nine beats is two.
    assert_eq!(summary.long_backward, 7);
    let spans: Vec<usize> = summary
        .longest
        .iter()
        .map(|index| summary.backward[*index].span)
        .collect();
    assert_eq!(spans, vec![8, 7, 6, 5, 4, 3]);
    let closest: Vec<u32> = summary
        .closest_long
        .iter()
        .map(|index| summary.backward[*index].distance)
        .collect();
    assert_eq!(closest, vec![92, 93, 94, 95, 96, 97]);
}

#[test]
fn graph_without_backward_transitions_summarises_empty() {
    let graph = BranchGraph {
        branches: vec![vec![branch(2, 1)], vec![], vec![]],
        threshold: 1,
        last_branch_point: 0,
    };
    let summary = summarize(&graph, 3);
    assert_eq!(summary.sources, 1);
    assert!(summary.backward.is_empty());
    assert_eq!(summary.long_backward, 0);
    assert!(summary.longest.is_empty());
    assert!(summary.closest_long.is_empty());
}

#[test]
fn edges_are_found_by_source_and_destination() {
    let graph = BranchGraph {
        branches: vec![vec![], vec![branch(0, 4), branch(3, 1), branch(0, 2)]],
        threshold: 5,
        last_branch_point: 1,
    };
    assert_eq!(find_edge(&graph, 1, 0), Some(branch(0, 4)));
    assert_eq!(find_edge(&graph, 1, 3), Some(branch(3, 1)));
    assert_eq!(find_edge(&graph, 1, 2), None);
    assert_eq!(find_edge(&graph, 0, 1), None);
    assert_eq!(find_edge(&graph, 7, 0), None);
}
