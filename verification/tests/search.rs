use parallel_astar::{a_star, kpbfs_search, parse_graph, solve, Flags, HeurType, Point};

fn grid_from(lines: &[&str]) -> (Vec<Vec<char>>, Point, Point) {
    let raw: Vec<Vec<char>> = lines.iter().map(|l| l.chars().collect()).collect();
    let (graph, start, end) = parse_graph(raw).expect("grid should parse");
    (graph, start, end)
}

#[test]
fn two_by_two_manhattan_one_worker_costs_two() {
    let (graph, start, end) = grid_from(&["2", "S.", ".E"]);
    let flags = Flags { graph, heur: HeurType::ManhattanDist, threads: 1 };
    let report = solve(&flags, start, end);
    assert!(report.complete);
    assert!(report.has_path());
    assert_eq!(report.cost, 2);
    assert_eq!(report.node.position, Point::new(1, 1));
}

#[test]
fn wall_row_reports_no_path_and_terminates() {
    let (graph, start, end) = grid_from(&["5", "S....", ".....", "WWWWW", ".....", "....E"]);
    let flags = Flags { graph, heur: HeurType::EuclideanDist, threads: 3 };
    let report = solve(&flags, start, end);
    assert!(report.complete);
    assert!(!report.has_path());
    assert_eq!(report.cost, i128::MAX);
    // Message conservation at the termination round.
    assert_eq!(report.sent, report.received);
    // Rounds stay in the order of the reachable-cell count.
    assert!(report.rounds < 200);
}

fn maze_20() -> Vec<&'static str> {
    vec![
        "20",
        "S...W...............",
        "..W.W.WWWWWWWWWWWW..",
        "..W.W.W..........W..",
        "..W.W.W.WWWWWWWW.W..",
        "..W.W.W.W......W.W..",
        "..W.W.W.W.WWWW.W.W..",
        "..W.W.W.W.W..W.W.W..",
        "..W.W.W.W.W..W.W.W..",
        "..W...W.W.WWWW.W.W..",
        "..WWWWW.W......W.W..",
        "........WWWWWWWW.W..",
        ".WWWWWWWW........W..",
        ".W......WWWWWWWWWW..",
        ".W.WWWW.............",
        ".W.W..W.WWWWWWWWWWW.",
        ".W.W..W.W.........W.",
        ".W.WW.W.W.WWWWWWW.W.",
        ".....W..W.W.....W.W.",
        "WWWW.WW.W.W.WWW.W.W.",
        "..........W...W...E.",
    ]
}

#[test]
fn maze_same_cost_for_all_worker_counts() {
    let (graph, start, end) = grid_from(&maze_20());
    let reference = a_star(start, end, &graph, &HeurType::ManhattanDist);
    assert!(reference.complete);
    assert!(reference.cost != i128::MAX);
    for heur in [HeurType::ManhattanDist, HeurType::EuclideanDist] {
        for threads in [1usize, 2, 4, 8] {
            let flags = Flags { graph: graph.clone(), heur, threads };
            let report = solve(&flags, start, end);
            assert!(report.complete);
            assert_eq!(report.cost, reference.cost);
            assert_eq!(report.sent, report.received);
        }
    }
}

#[test]
fn single_worker_matches_sequential_search() {
    let cases: Vec<Vec<&str>> = vec![
        vec!["2", "S.", ".E"],
        vec!["3", "S..", ".W.", "..E"],
        vec!["4", "S.W.", "..W.", ".WW.", "...E"],
        vec!["5", "S....", "WWWW.", ".....", ".WWWW", "....E"],
    ];
    for lines in cases {
        let (graph, start, end) = grid_from(&lines);
        let reference = a_star(start, end, &graph, &HeurType::ManhattanDist);
        let flags = Flags { graph, heur: HeurType::ManhattanDist, threads: 1 };
        let report = solve(&flags, start, end);
        assert!(report.complete && reference.complete);
        assert_eq!(report.cost, reference.cost);
    }
}

#[test]
fn sequential_reference_finds_the_detour() {
    let (graph, start, end) = grid_from(&["5", "S....", "WWWW.", ".....", ".WWWW", "....E"]);
    let report = a_star(start, end, &graph, &HeurType::ManhattanDist);
    assert!(report.complete);
    assert_eq!(report.cost, 16);
}

#[test]
fn kpbfs_baseline_agrees_with_distributed_variants() {
    let (graph, start, end) = grid_from(&maze_20());
    let baseline = kpbfs_search(
        &Flags { graph: graph.clone(), heur: HeurType::EuclideanDist, threads: 4 },
        start,
        end,
    );
    let distributed = solve(
        &Flags { graph, heur: HeurType::EuclideanDist, threads: 4 },
        start,
        end,
    );
    assert!(baseline.complete && distributed.complete);
    assert_eq!(baseline.cost, distributed.cost);
}

#[test]
fn goal_next_to_start_costs_one() {
    let (graph, start, end) = grid_from(&["2", "SE", ".."]);
    for threads in [1usize, 2] {
        let flags = Flags { graph: graph.clone(), heur: HeurType::EuclideanDist, threads };
        let report = solve(&flags, start, end);
        assert!(report.complete);
        assert_eq!(report.cost, 1);
    }
}

#[test]
fn expensive_heuristic_changes_nothing_about_the_cost() {
    let (graph, start, end) = grid_from(&["3", "S..", "...", "..E"]);
    let cheap = solve(
        &Flags { graph: graph.clone(), heur: HeurType::EuclideanDist, threads: 2 },
        start,
        end,
    );
    let slow = solve(
        &Flags { graph, heur: HeurType::Expensive, threads: 2 },
        start,
        end,
    );
    assert_eq!(cheap.cost, 4);
    assert_eq!(slow.cost, cheap.cost);
}

#[test]
fn nonadmissible_still_terminates_and_finds_some_path() {
    let (graph, start, end) = grid_from(&["4", "S...", ".W..", "..W.", "...E"]);
    let flags = Flags { graph, heur: HeurType::NonAdmissible, threads: 2 };
    let report = solve(&flags, start, end);
    assert!(report.complete);
    assert!(report.has_path());
    // Any path this engine can report moves one cell per step.
    assert!(report.cost >= 6);
    assert_eq!(report.sent, report.received);
}

#[test]
fn repeated_runs_report_identically() {
    let (graph, start, end) = grid_from(&maze_20());
    let flags = Flags { graph, heur: HeurType::EuclideanDist, threads: 4 };
    let first = solve(&flags, start, end);
    let second = solve(&flags, start, end);
    assert_eq!(first.cost, second.cost);
    assert_eq!(first.rounds, second.rounds);
    assert_eq!(first.sent, second.sent);
    assert_eq!(first.received, second.received);
}

#[test]
fn enclosed_start_reports_no_path_everywhere() {
    let (graph, start, end) = grid_from(&["2", "SW", "WE"]);
    let reference = a_star(start, end, &graph, &HeurType::ManhattanDist);
    assert!(reference.complete);
    assert_eq!(reference.cost, i128::MAX);
    for threads in [1usize, 3] {
        let flags = Flags { graph: graph.clone(), heur: HeurType::ManhattanDist, threads };
        let report = solve(&flags, start, end);
        assert!(report.complete);
        assert!(!report.has_path());
    }
}
