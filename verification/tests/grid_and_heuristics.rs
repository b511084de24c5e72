use parallel_astar::{
    distance, euclidean, expensive, heur, heuristic, heur_for_name, inflated_estimate,
    is_valid_neighbor, isqrt, manhattan, non_admissible, parse_dimension, parse_graph,
    string_from_heur, validate_algo, validate_heuristic, GridError, HeurType, Node, Point,
};

fn node(x: i32, y: i32) -> Node {
    Node::new(x, y, 0, 0, 0, Point::default())
}

fn lines(rows: &[&str]) -> Vec<Vec<char>> {
    rows.iter().map(|l| l.chars().collect()).collect()
}

#[test]
fn isqrt_matches_exact_and_inexact_squares() {
    assert_eq!(isqrt(0), 0);
    assert_eq!(isqrt(1), 1);
    assert_eq!(isqrt(10), 3);
    assert_eq!(isqrt(25), 5);
    assert_eq!(isqrt(24), 4);
    assert_eq!(isqrt(4_294_791_199), 65_534);
}

#[test]
fn euclidean_is_the_floored_distance() {
    assert_eq!(euclidean(node(0, 0), node(3, 4)), 5);
    assert_eq!(euclidean(node(1, 1), node(2, 2)), 1);
    assert_eq!(euclidean(node(0, 0), node(0, 0)), 0);
    assert_eq!(distance(node(2, 3), node(2, 10)), 7);
    assert_eq!(expensive(node(0, 0), node(3, 4)), 5);
}

#[test]
fn manhattan_adds_the_axis_distances() {
    assert_eq!(manhattan(node(0, 0), node(3, 4)), 7);
    assert_eq!(manhattan(node(5, 5), node(2, 9)), 7);
    assert_eq!(heur(node(0, 0), node(1, 1)), 2);
    assert_eq!(
        heuristic(node(0, 0), node(3, 4), &HeurType::ManhattanDist),
        7
    );
    assert_eq!(
        heuristic(node(0, 0), node(3, 4), &HeurType::EuclideanDist),
        5
    );
}

#[test]
fn inflation_applies_the_exact_percentage() {
    assert_eq!(inflated_estimate(100, 50), 150);
    assert_eq!(inflated_estimate(7, 10), 7);
    assert_eq!(inflated_estimate(7, 15), 8);
    assert_eq!(inflated_estimate(0, 99), 0);
}

#[test]
fn nonadmissible_estimate_stays_between_distance_and_its_double() {
    // The random percentage may differ per call, but every outcome is an
    // inflation of the Euclidean distance: 5 <= r < 10 here. A wrapper that
    // returned something out of range would fail this.
    for _ in 0..40 {
        let r = non_admissible(node(0, 0), node(3, 4), false);
        assert!(5 <= r && r < 10);
        let h = heuristic(node(0, 0), node(3, 4), &HeurType::NonAdmissible);
        assert!(5 <= h && h < 10);
    }
}

#[test]
fn neighbor_validity_checks_bounds_and_walls() {
    let g = lines(&["S.W", "...", "..E"]);
    let n = node(1, 1);
    assert!(is_valid_neighbor(&g, &n, 0, 1));
    assert!(is_valid_neighbor(&g, &n, -1, 0));
    assert!(!is_valid_neighbor(&g, &n, -1, 1)); // wall at (0, 2)
    let corner = node(0, 0);
    assert!(!is_valid_neighbor(&g, &corner, -1, 0)); // off the grid
    assert!(!is_valid_neighbor(&g, &corner, 0, -1));
}

#[test]
fn dimension_line_parses_exactly_the_usable_sizes() {
    assert_eq!(parse_dimension(&"5".chars().collect()), Some(5));
    assert_eq!(parse_dimension(&"20".chars().collect()), Some(20));
    assert_eq!(parse_dimension(&"46340".chars().collect()), Some(46340));
    assert_eq!(parse_dimension(&"46341".chars().collect()), None);
    assert_eq!(parse_dimension(&"0".chars().collect()), None);
    assert_eq!(parse_dimension(&"".chars().collect()), None);
    assert_eq!(parse_dimension(&"1x".chars().collect()), None);
    assert_eq!(parse_dimension(&"99999999999999999999".chars().collect()), None);
}

#[test]
fn parse_graph_accepts_a_good_grid() {
    let (graph, start, end) = parse_graph(lines(&["3", "S..", ".W.", "..E"])).unwrap();
    assert_eq!(graph.len(), 3);
    assert_eq!(start, Point::new(0, 0));
    assert_eq!(end, Point::new(2, 2));
    assert_eq!(graph[1][1], 'W');
}

#[test]
fn parse_graph_rejects_each_malformed_input() {
    let no_lines: Vec<Vec<char>> = Vec::new();
    assert_eq!(parse_graph(no_lines).unwrap_err(), GridError::BadSize);
    assert_eq!(
        parse_graph(lines(&["x", "S.", ".E"])).unwrap_err(),
        GridError::BadSize
    );
    assert_eq!(
        parse_graph(lines(&["3", "S..", "..E"])).unwrap_err(),
        GridError::BadShape
    );
    assert_eq!(
        parse_graph(lines(&["2", "S.", ".E."])).unwrap_err(),
        GridError::BadShape
    );
    assert_eq!(
        parse_graph(lines(&["2", "SQ", ".E"])).unwrap_err(),
        GridError::BadCell
    );
    assert_eq!(
        parse_graph(lines(&["2", "..", ".E"])).unwrap_err(),
        GridError::BadStart
    );
    assert_eq!(
        parse_graph(lines(&["2", "SS", ".E"])).unwrap_err(),
        GridError::BadStart
    );
    assert_eq!(
        parse_graph(lines(&["2", "S.", ".."])).unwrap_err(),
        GridError::BadGoal
    );
    assert_eq!(
        parse_graph(lines(&["2", "SE", "EE"])).unwrap_err(),
        GridError::BadGoal
    );
}

#[test]
fn heuristic_and_algo_names_validate_exactly() {
    for name in ["euclidean", "manhattan", "expensive", "nonadmissible", "expnon"] {
        assert!(validate_heuristic(name.to_string()).is_ok());
    }
    let err = validate_heuristic("fast".to_string()).unwrap_err();
    assert!(err.contains("valid heuristic option"));
    for name in ["hda", "dpa", "kpbfs"] {
        assert!(validate_algo(name.to_string()).is_ok());
    }
    let err = validate_algo("bfs".to_string()).unwrap_err();
    assert!(err.contains("valid implementation option"));
}

#[test]
fn heuristic_names_round_trip() {
    for heur_type in [
        HeurType::EuclideanDist,
        HeurType::ManhattanDist,
        HeurType::Expensive,
        HeurType::NonAdmissible,
        HeurType::ExpensiveNonAdmissible,
    ] {
        let name = string_from_heur(heur_type);
        assert_eq!(heur_for_name(&name), Some(heur_type));
    }
    assert_eq!(heur_for_name(&"dijkstra".to_string()), None);
}
