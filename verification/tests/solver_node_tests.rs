use laser_maze::{Orientation, SolverNode, Token, TokenType};

#[test]
fn mem_sizes() {
    let solver_node = std::mem::size_of::<SolverNode>();
    println!("SolverNode has size {solver_node}");
}

#[test]
fn test_edge_detect() {
    // test cell blocker on top right corner
    let mut cells: Vec<Option<Token>> = vec![None; 25];
    cells[24] = Some(Token::new(TokenType::CellBlocker, None, false));
    let solver = SolverNode::new(cells, vec![], 1);
    assert_eq!(
        [Some(Orientation::North), Some(Orientation::East)],
        solver.forbidden_orientations(19)
    );
    // test piece away from cell blocker or edge
    assert_eq!([None, None], solver.forbidden_orientations(18));
    // test piece on edge
    assert_eq!(
        [Some(Orientation::West), None],
        solver.forbidden_orientations(10)
    );
    // test piece on corner
    assert_eq!(
        [Some(Orientation::South), Some(Orientation::West)],
        solver.forbidden_orientations(0)
    );
    // test center
    assert_eq!([None, None], solver.forbidden_orientations(12));

    // test cell blocker on non-corner edge with piece neighboring
    let mut cells: Vec<Option<Token>> = vec![None; 25];
    cells[3] = Some(Token::new(TokenType::CellBlocker, None, false));
    let solver = SolverNode::new(cells, vec![], 1);
    assert_eq!(
        [Some(Orientation::South), None],
        solver.forbidden_orientations(8)
    );
}
