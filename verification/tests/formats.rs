use anneal_model::graph_file::parse_edge_line;
use anneal_model::{
    parse_graph_file, parse_ising_file, GraphFileError, GraphWeights, InitialState, IsingFileError,
};

fn lines(text: &str) -> Vec<Vec<char>> {
    text.lines().map(|l| l.chars().collect()).collect()
}

fn word(w: &[char]) -> String {
    w.iter().collect()
}

#[test]
fn graph_with_score_matrix_and_start_node() {
    let text = "comment\n$n_points_temp\n3 0.5\n$begin_score_matrix\n1 2 0\n2 0.5 1\n0 1 3\n$initial_state\n 2 \n";
    let g = parse_graph_file(&lines(text)).unwrap();
    assert_eq!(g.n_points, 3);
    assert_eq!(word(&g.temp), "0.5");
    match &g.weights {
        GraphWeights::ScoreMatrix(rows) => {
            assert_eq!(rows.len(), 3);
            assert_eq!(word(&rows[1][1]), "0.5");
            assert_eq!(word(&rows[2][2]), "3");
        },
        _ => panic!("expected a score matrix"),
    }
    match g.initial {
        InitialState::Start(s) => assert_eq!(s, 2),
        _ => panic!("expected a start node"),
    }
}

#[test]
fn graph_with_edge_list_and_distribution() {
    let text = "$n_points_temp\n2 1.0\n$begin_edge_weights\n0 1 0.25\n+1 0 2\n\n$initial_state_vec\n 0.5 \n0.5\n";
    let g = parse_graph_file(&lines(text)).unwrap();
    match &g.weights {
        GraphWeights::EdgeList(edges) => {
            assert_eq!(edges.len(), 2);
            assert_eq!((edges[0].0, edges[0].1, word(&edges[0].2)), (0, 1, "0.25".to_string()));
            assert_eq!((edges[1].0, edges[1].1), (1, 0));
        },
        _ => panic!("expected an edge list"),
    }
    match &g.initial {
        InitialState::Distribution(v) => {
            assert_eq!(v.len(), 2);
            assert_eq!(word(&v[0]), "0.5");
        },
        _ => panic!("expected a distribution"),
    }
}

#[test]
fn edge_list_swallows_the_line_that_ends_it() {
    // The header that ends the edge list is consumed with it, so the initial
    // state must be announced again.
    let text = "$n_points_temp\n2 1.0\n$begin_edge_weights\n0 1 1\n$initial_state\n0\n";
    assert_eq!(parse_graph_file(&lines(text)).unwrap_err(), GraphFileError::MissingInitialState);
}

#[test]
fn graph_errors() {
    let cases: Vec<(&str, GraphFileError)> = vec![
        ("nothing here", GraphFileError::MissingPointsTemp),
        ("$n_points_temp", GraphFileError::MissingPointsTemp),
        ("$n_points_temp\n   ", GraphFileError::MissingPointsCount),
        ("$n_points_temp\n-3 1", GraphFileError::BadPointsCount),
        ("$n_points_temp\n3", GraphFileError::MissingTemp),
        ("$n_points_temp\n3 1\n", GraphFileError::MissingWeightsSection),
        ("$n_points_temp\n2 1\n$begin_score_matrix\n1 2\n3\n", GraphFileError::ScoreColumns { expected: 2, found: 1 }),
        ("$n_points_temp\n2 1\n$begin_score_matrix\n1 2\n", GraphFileError::ScoreRows { expected: 2, found: 1 }),
        ("$n_points_temp\n2 1\n$begin_edge_weights\nx 1 1\n", GraphFileError::BadFrom),
        ("$n_points_temp\n2 1\n$begin_edge_weights\n1\n", GraphFileError::MissingTo),
        ("$n_points_temp\n2 1\n$begin_edge_weights\n1 y\n", GraphFileError::BadTo),
        ("$n_points_temp\n2 1\n$begin_edge_weights\n1 2 1\n", GraphFileError::NodeOutOfRange { to: 2, from: 1 }),
        ("$n_points_temp\n2 1\n$begin_edge_weights\n1 0\n", GraphFileError::MissingWeight),
        ("$n_points_temp\n2 1\n$begin_edge_weights\n1 0 1\n\n", GraphFileError::MissingInitialState),
        ("$n_points_temp\n2 1\n$begin_edge_weights\n\n$initial_state\n", GraphFileError::MissingStart),
        ("$n_points_temp\n2 1\n$begin_edge_weights\n\n$initial_state\nz\n", GraphFileError::BadStart),
        ("$n_points_temp\n2 1\n$begin_edge_weights\n\n$initial_state\n2\n", GraphFileError::StartOutOfRange { start: 2, len: 2 }),
    ];
    for (text, err) in cases {
        assert_eq!(parse_graph_file(&lines(text)).unwrap_err(), err, "{}", text);
    }
}

const RING: &str = "$temp\n2.0\n$dim_sizes\n1 3\n$edge_weights_start\n0.1\n0.2\n0.3\n$mu\n0.5\n$external_magnetic_field\n1\n-1\n1\n";

#[test]
fn ising_ring() {
    let f = parse_ising_file(&lines(RING)).unwrap();
    assert_eq!(word(&f.temp), "2.0");
    assert_eq!(f.lattice.n_points(), 3);
    assert_eq!(f.lattice.sizes(), &vec![3]);
    assert_eq!(f.weight_slots, vec![(0, 3), (1, 4), (2, 5)]);
    let ws: Vec<String> = f.weights.iter().map(|w| word(w)).collect();
    assert_eq!(ws, vec!["0.1", "0.2", "0.3"]);
    assert_eq!(word(&f.mu), "0.5");
    assert_eq!(f.magnetic_field.len(), 3);
    assert_eq!(word(&f.magnetic_field[1]), "-1");
}

#[test]
fn ising_errors() {
    let cases: Vec<(&str, IsingFileError)> = vec![
        ("", IsingFileError::MissingTemp),
        ("$temp", IsingFileError::MissingDimSizes),
        ("$temp\n \n", IsingFileError::BlankTemp),
        ("$temp\n1\n", IsingFileError::MissingDimSizes),
        ("$temp\n1\n$dim_sizes\n\n", IsingFileError::MissingDim),
        ("$temp\n1\n$dim_sizes\nq 2\n", IsingFileError::BadDim),
        ("$temp\n1\n$dim_sizes\n0\n", IsingFileError::ZeroDim),
        ("$temp\n1\n$dim_sizes\n2 3\n", IsingFileError::SizesMismatch),
        ("$temp\n1\n$dim_sizes\n2 3 x\n", IsingFileError::BadSize),
        ("$temp\n1\n$dim_sizes\n2 4294967296 4294967296\n", IsingFileError::SitesOverflow),
        ("$temp\n1\n$dim_sizes\n1 3\n", IsingFileError::MissingEdgeWeights),
        ("$temp\n1\n$dim_sizes\n1 3\n$edge_weights_start\n1\n2\n", IsingFileError::InsufficientWeights),
        ("$temp\n1\n$dim_sizes\n1 3\n$edge_weights_start\n1\n\n3\n", IsingFileError::BlankWeight),
        ("$temp\n1\n$dim_sizes\n1 3\n$edge_weights_start\n1\n2\n3\n", IsingFileError::MissingMu),
        ("$temp\n1\n$dim_sizes\n1 3\n$edge_weights_start\n1\n2\n3\n$mu\n \n", IsingFileError::BlankMu),
        ("$temp\n1\n$dim_sizes\n1 3\n$edge_weights_start\n1\n2\n3\n$mu\n1\n", IsingFileError::MissingField),
        ("$temp\n1\n$dim_sizes\n1 3\n$edge_weights_start\n1\n2\n3\n$mu\n1\n$external_magnetic_field\n1\n", IsingFileError::NotEnoughField),
        ("$temp\n1\n$dim_sizes\n1 3\n$edge_weights_start\n1\n2\n3\n$mu\n1\n$external_magnetic_field\n1\n\n1\n", IsingFileError::BlankField),
    ];
    for (text, err) in cases {
        assert_eq!(parse_ising_file(&lines(text)).unwrap_err(), err, "{}", text);
    }
}

#[test]
fn edge_line_fields() {
    let blank: Vec<char> = "   ".chars().collect();
    assert_eq!(parse_edge_line(&blank, 3).unwrap_err(), GraphFileError::MissingFrom);
    let ok: Vec<char> = " 2\t0  1e-3 extra".chars().collect();
    let (from, to, w) = parse_edge_line(&ok, 3).unwrap();
    assert_eq!((from, to, word(&w)), (2, 0, "1e-3".to_string()));
    let big: Vec<char> = "18446744073709551616 0 1".chars().collect();
    assert_eq!(parse_edge_line(&big, 3).unwrap_err(), GraphFileError::BadFrom);
}

#[test]
fn ising_weight_list_too_long() {
    let text = "$temp\n1\n$dim_sizes\n1 9223372036854775808\n$edge_weights_start\n";
    assert_eq!(parse_ising_file(&lines(text)).unwrap_err(), IsingFileError::WeightsOverflow);
}
