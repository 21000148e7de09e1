use opg::loader::LoadError;
use opg::precedence::PrecedenceGrammar;
use opg::precedence::OPG;
use opg::precedence::SPG;

#[test]
fn loads_direct_matrices() {
    let text = "2 2\nyields\n0 1\n0 0\n\n2 2\ntakes\n0 0\n1 0\n\n2 2\nequal\n1 0\n0 1\n";
    let mut g = OPG::new();
    g.parse_input(text, false).unwrap();
    assert_eq!(g.m_dimension, 2);
    assert_eq!(g.yields, vec![vec![false, true], vec![false, false]]);
    assert_eq!(g.takes, vec![vec![false, false], vec![true, false]]);
    assert_eq!(g.equal, vec![vec![true, false], vec![false, true]]);
}

#[test]
fn loads_handle_matrices() {
    let text = "1 1\nfirst\n1\n\n1 1\nfirst term\n0\n\n1 1\nlast\n1\n\n1 1\nlast term\n0\n\n1 1\nequal\n1\n";
    let mut g = OPG::new();
    g.parse_input(text, true).unwrap();
    assert_eq!(g.m_dimension, 1);
    assert_eq!(g.first, vec![vec![true]]);
    assert_eq!(g.first_term, vec![vec![false]]);
    assert_eq!(g.last, vec![vec![true]]);
    assert_eq!(g.last_term, vec![vec![false]]);
    assert_eq!(g.equal, vec![vec![true]]);
}

#[test]
fn matrix_names_ignore_ascii_case() {
    let text = "1 1\nFirst Term\n1\n";
    let mut g = OPG::new();
    g.parse_input(text, true).unwrap();
    assert_eq!(g.first_term, vec![vec![true]]);
}

#[test]
fn later_blocks_overwrite_earlier_ones() {
    let text = "1 1\nequal\n0\n\n1 1\nequal\n1\n";
    let mut g = OPG::new();
    g.parse_input(text, true).unwrap();
    assert_eq!(g.equal, vec![vec![true]]);
}

#[test]
fn unequal_declared_dimensions_are_rejected() {
    let text = "2 3\nequal\n0 0\n0 0\n";
    let mut g = OPG::new();
    assert_eq!(
        g.parse_input(text, false),
        Err(LoadError::MalformedMatrixInput)
    );
}

#[test]
fn unknown_matrix_name_is_rejected() {
    let text = "1 1\nmiddle\n1\n";
    let mut g = OPG::new();
    assert_eq!(
        g.parse_input(text, true),
        Err(LoadError::MalformedMatrixInput)
    );
}

#[test]
fn handle_names_are_rejected_in_direct_mode() {
    let text = "1 1\nfirst\n1\n";
    let mut g = OPG::new();
    assert_eq!(
        g.parse_input(text, false),
        Err(LoadError::MalformedMatrixInput)
    );
}

#[test]
fn non_binary_entries_are_rejected() {
    let text = "1 1\nequal\n2\n";
    let mut g = OPG::new();
    assert_eq!(
        g.parse_input(text, false),
        Err(LoadError::MalformedMatrixInput)
    );
}

#[test]
fn short_rows_are_rejected() {
    let text = "2 2\nequal\n0\n0 0\n";
    let mut g = OPG::new();
    assert_eq!(
        g.parse_input(text, false),
        Err(LoadError::MalformedMatrixInput)
    );
}

#[test]
fn missing_rows_are_rejected() {
    let text = "2 2\nequal\n0 0\n";
    let mut g = OPG::new();
    assert_eq!(
        g.parse_input(text, false),
        Err(LoadError::MalformedMatrixInput)
    );
}

#[test]
fn a_failed_load_changes_nothing() {
    let mut g = OPG::new();
    g.parse_input("1 1\nequal\n1\n", false).unwrap();
    let kept = g.equal.clone();
    assert_eq!(
        g.parse_input("1 1\nmiddle\n1\n", false),
        Err(LoadError::MalformedMatrixInput)
    );
    assert_eq!(g.equal, kept);
    assert_eq!(g.m_dimension, 1);
}

#[test]
fn spg_loads_its_three_handle_matrices() {
    let text = "1 1\nfirst\n1\n\n1 1\nlast\n0\n\n1 1\nequal\n1\n";
    let mut g = SPG::new();
    g.parse_input(text, true).unwrap();
    assert_eq!(g.first, vec![vec![true]]);
    assert_eq!(g.last, vec![vec![false]]);
    assert_eq!(g.equal, vec![vec![true]]);
}

#[test]
fn spg_rejects_term_matrices() {
    let text = "1 1\nfirst term\n1\n";
    let mut g = SPG::new();
    assert_eq!(
        g.parse_input(text, true),
        Err(LoadError::MalformedMatrixInput)
    );
}

#[test]
fn loaded_matrices_drive_handle_construction() {
    // FIRST and LAST chains over three symbols, diagonal EQUAL.
    let text = "3 3\nfirst\n0 1 0\n0 0 1\n0 0 0\n\n3 3\nfirst term\n0 1 0\n0 0 1\n0 0 0\n\n\
        3 3\nlast\n0 0 0\n1 0 0\n0 1 0\n\n3 3\nlast term\n0 0 0\n1 0 0\n0 1 0\n\n\
        3 3\nequal\n1 0 0\n0 1 0\n0 0 1\n";
    let mut g = OPG::new();
    g.parse_input(text, true).unwrap();
    g.compute_handles();
    assert_eq!(g.yields.len(), 3);
    assert_eq!(g.takes.len(), 3);
    // FIRST+ reaches symbol 2 from symbol 0, so 0 yields what 2 begins
    assert!(g.yields[0][2]);
    g.shrink_precedence();
    assert_eq!(g.f.len(), 3);
    assert_eq!(g.g.len(), 3);
}
