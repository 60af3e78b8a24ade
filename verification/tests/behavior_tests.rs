use laser_maze::{
    ActiveLaser, LaserMazeSolver, LaserTokenInteractionResult, Orientation, SolverNode, Token,
    TokenType,
};

// The reference interaction table, checked literally on pieces facing North.

#[test]
fn target_mirror_deflects_east_to_south() {
    let mut t = Token::new(TokenType::TargetMirror, Some(Orientation::North), false);
    let r = t.outbound_lasers_given_inbound_laser_direction(&Orientation::East);
    assert_eq!(
        r.0,
        LaserTokenInteractionResult::OutboundLaser(Orientation::South)
    );
    assert_eq!(
        r.1,
        LaserTokenInteractionResult::NoOutboundLaser { valid: true }
    );
    // deflection lights the mirror but not its target
    assert!(t.lit);
    assert_eq!(t.target_lit(), Some(false));
}

#[test]
fn target_mirror_absorbs_south() {
    let mut t = Token::new(TokenType::TargetMirror, Some(Orientation::North), false);
    let r = t.outbound_lasers_given_inbound_laser_direction(&Orientation::South);
    assert_eq!(
        r.0,
        LaserTokenInteractionResult::NoOutboundLaser { valid: true }
    );
    assert_eq!(
        r.1,
        LaserTokenInteractionResult::NoOutboundLaser { valid: true }
    );
    assert_eq!(t.target_lit(), Some(true));
}

#[test]
fn beam_splitter_reflects_and_transmits() {
    let mut t = Token::new(TokenType::BeamSplitter, Some(Orientation::North), false);
    let r = t.outbound_lasers_given_inbound_laser_direction(&Orientation::North);
    assert_eq!(
        r.0,
        LaserTokenInteractionResult::OutboundLaser(Orientation::West)
    );
    assert_eq!(
        r.1,
        LaserTokenInteractionResult::OutboundLaser(Orientation::North)
    );
    assert!(t.lit);
}

#[test]
fn double_mirror_deflects_west_to_north() {
    let mut t = Token::new(TokenType::DoubleMirror, Some(Orientation::North), false);
    let r = t.outbound_lasers_given_inbound_laser_direction(&Orientation::West);
    assert_eq!(
        r.0,
        LaserTokenInteractionResult::OutboundLaser(Orientation::North)
    );
    assert_eq!(
        r.1,
        LaserTokenInteractionResult::NoOutboundLaser { valid: true }
    );
}

#[test]
fn checkpoint_blocks_east() {
    let mut t = Token::new(TokenType::Checkpoint, Some(Orientation::North), false);
    let r = t.outbound_lasers_given_inbound_laser_direction(&Orientation::East);
    assert_eq!(
        r.0,
        LaserTokenInteractionResult::NoOutboundLaser { valid: false }
    );
    assert!(!t.lit);
}

#[test]
fn checkpoint_passes_north() {
    let mut t = Token::new(TokenType::Checkpoint, Some(Orientation::North), false);
    let r = t.outbound_lasers_given_inbound_laser_direction(&Orientation::North);
    assert_eq!(
        r.0,
        LaserTokenInteractionResult::OutboundLaser(Orientation::North)
    );
    assert!(t.lit);
}

// Frame changes compose to the identity for every piece rotation and every
// world direction.
#[test]
fn reorientation_round_trip() {
    for p in 0..4usize {
        for d in 0..4usize {
            let piece = Orientation::from_index(p);
            let world = Orientation::from_index(d);
            let local = piece.reorient_inbound_laser(&world);
            let back = piece.reorient_outbound_laser(&local);
            assert_eq!(back, world);
        }
    }
}

#[test]
fn orientation_indices_round_trip() {
    for i in 0..4usize {
        assert_eq!(Orientation::from_index(i).to_index(), i);
    }
}

// Cardinality validation: a puzzle with two lasers is rejected.
#[test]
fn two_lasers_rejected() {
    let mut cells: Vec<Option<Token>> = vec![None; 25];
    cells[0] = Some(Token::new(TokenType::Laser, Some(Orientation::East), false));
    cells[4] = Some(Token::new(
        TokenType::TargetMirror,
        Some(Orientation::West),
        false,
    ));
    let bag = vec![Token::new(TokenType::Laser, None, false)];
    let mut solver = LaserMazeSolver::new(cells, bag, 1);
    match solver.solve() {
        Ok(_) => panic!("puzzle with two lasers must be rejected"),
        Err(s) => assert_eq!(s, String::from("Invalid piece count for piece type Laser!")),
    }
}

#[test]
fn too_many_beam_splitters_rejected() {
    let mut cells: Vec<Option<Token>> = vec![None; 25];
    cells[0] = Some(Token::new(TokenType::Laser, Some(Orientation::East), false));
    cells[4] = Some(Token::new(
        TokenType::TargetMirror,
        Some(Orientation::West),
        false,
    ));
    let bag = vec![
        Token::new(TokenType::BeamSplitter, None, false),
        Token::new(TokenType::BeamSplitter, None, false),
        Token::new(TokenType::BeamSplitter, None, false),
    ];
    let mut solver = LaserMazeSolver::new(cells, bag, 1);
    match solver.solve() {
        Ok(_) => panic!("puzzle with three beam splitters must be rejected"),
        Err(s) => assert_eq!(
            s,
            String::from("Invalid piece count for piece type BeamSplitter!")
        ),
    }
}

#[test]
fn too_many_must_light_rejected() {
    let mut cells: Vec<Option<Token>> = vec![None; 25];
    cells[0] = Some(Token::new(TokenType::Laser, Some(Orientation::East), false));
    cells[4] = Some(Token::new(TokenType::TargetMirror, None, true));
    cells[9] = Some(Token::new(TokenType::TargetMirror, None, true));
    let mut solver = LaserMazeSolver::new(cells, vec![], 1);
    match solver.solve() {
        Ok(_) => panic!("more must-light targets than targets must be rejected"),
        Err(s) => assert_eq!(
            s,
            String::from("Invalid number of pieces which must be lit!")
        ),
    }
}

#[test]
fn cell_blocker_in_bag_rejected() {
    let mut cells: Vec<Option<Token>> = vec![None; 25];
    cells[0] = Some(Token::new(TokenType::Laser, Some(Orientation::East), false));
    cells[4] = Some(Token::new(
        TokenType::TargetMirror,
        Some(Orientation::West),
        false,
    ));
    let bag = vec![Token::new(TokenType::CellBlocker, None, false)];
    let mut solver = LaserMazeSolver::new(cells, bag, 1);
    match solver.solve() {
        Ok(_) => panic!("cell blocker in the bag must be rejected"),
        Err(s) => assert_eq!(
            s,
            String::from("Cell Blocker included in tokens_to_be_added!")
        ),
    }
}

#[test]
fn no_target_mirror_rejected() {
    let mut cells: Vec<Option<Token>> = vec![None; 25];
    cells[0] = Some(Token::new(TokenType::Laser, Some(Orientation::East), false));
    let mut solver = LaserMazeSolver::new(cells, vec![], 1);
    match solver.solve() {
        Ok(_) => panic!("puzzle without target mirrors must be rejected"),
        Err(s) => assert_eq!(
            s,
            String::from("Invalid piece count for piece type TargetMirror!")
        ),
    }
}

#[test]
fn too_many_double_mirrors_rejected() {
    let mut cells: Vec<Option<Token>> = vec![None; 25];
    cells[0] = Some(Token::new(TokenType::Laser, Some(Orientation::East), false));
    cells[4] = Some(Token::new(
        TokenType::TargetMirror,
        Some(Orientation::West),
        false,
    ));
    cells[6] = Some(Token::new(TokenType::DoubleMirror, None, false));
    cells[7] = Some(Token::new(TokenType::DoubleMirror, None, false));
    let mut solver = LaserMazeSolver::new(cells, vec![], 1);
    match solver.solve() {
        Ok(_) => panic!("puzzle with two double mirrors must be rejected"),
        Err(s) => assert_eq!(
            s,
            String::from("Invalid piece count for piece type DoubleMirror!")
        ),
    }
}

#[test]
fn too_many_checkpoints_rejected() {
    let mut cells: Vec<Option<Token>> = vec![None; 25];
    cells[0] = Some(Token::new(TokenType::Laser, Some(Orientation::East), false));
    cells[4] = Some(Token::new(
        TokenType::TargetMirror,
        Some(Orientation::West),
        false,
    ));
    cells[6] = Some(Token::new(TokenType::Checkpoint, None, false));
    cells[7] = Some(Token::new(TokenType::Checkpoint, None, false));
    let mut solver = LaserMazeSolver::new(cells, vec![], 1);
    match solver.solve() {
        Ok(_) => panic!("puzzle with two checkpoints must be rejected"),
        Err(s) => assert_eq!(
            s,
            String::from("Invalid piece count for piece type Checkpoint!")
        ),
    }
}

#[test]
fn too_many_cell_blockers_rejected() {
    let mut cells: Vec<Option<Token>> = vec![None; 25];
    cells[0] = Some(Token::new(TokenType::Laser, Some(Orientation::East), false));
    cells[4] = Some(Token::new(
        TokenType::TargetMirror,
        Some(Orientation::West),
        false,
    ));
    cells[6] = Some(Token::new(TokenType::CellBlocker, None, false));
    cells[7] = Some(Token::new(TokenType::CellBlocker, None, false));
    let mut solver = LaserMazeSolver::new(cells, vec![], 1);
    match solver.solve() {
        Ok(_) => panic!("puzzle with two cell blockers must be rejected"),
        Err(s) => assert_eq!(
            s,
            String::from("Invalid piece count for piece type CellBlocker!")
        ),
    }
}

// End-to-end scenario: a straight shot from the laser into a target's face.
#[test]
fn straight_line_absorption() {
    let mut cells: Vec<Option<Token>> = vec![None; 25];
    cells[0] = Some(Token::new(TokenType::Laser, Some(Orientation::East), false));
    cells[4] = Some(Token::new(
        TokenType::TargetMirror,
        Some(Orientation::West),
        false,
    ));

    // the simulator lights the target
    let node = SolverNode::new(cells.clone(), vec![], 1);
    let checker = node.check();
    assert!(checker.solved());
    assert_eq!(checker.grid.cells[4].unwrap().target_lit(), Some(true));

    // and the solver reports the board solved as it stands
    let mut solver = LaserMazeSolver::new(cells, vec![], 1);
    let solution = solver.solve().unwrap().unwrap();
    assert_eq!(solution[0].unwrap().type_(), &TokenType::Laser);
    assert_eq!(solution[4].unwrap().type_(), &TokenType::TargetMirror);
}

// End-to-end scenario: everything starts in the bag; the found board must
// pass an independent rerun of the simulator.
#[test]
fn bag_only_puzzle_self_check() {
    let cells: Vec<Option<Token>> = vec![None; 25];
    let bag = vec![
        Token::new(TokenType::Laser, None, false),
        Token::new(TokenType::BeamSplitter, None, false),
        Token::new(TokenType::TargetMirror, None, false),
        Token::new(TokenType::TargetMirror, None, false),
    ];
    let mut solver = LaserMazeSolver::new(cells, bag, 2);
    let solution = solver.solve().unwrap().unwrap();

    // every piece placed and rotated
    let placed = solution.iter().filter(|c| c.is_some()).count();
    assert_eq!(placed, 4);
    assert!(solution
        .iter()
        .flatten()
        .all(|t| t.orientation().is_some()));

    // the returned board satisfies a fresh, solver-independent simulation
    let recheck = SolverNode::new(solution, vec![], 2).check();
    assert!(recheck.solved());
}

// Resetting after a simulation and simulating again yields the same lit
// state as the first run.
#[test]
fn reset_then_resimulate_matches() {
    let mut cells: Vec<Option<Token>> = vec![None; 25];
    cells[24] = Some(Token::new(TokenType::Laser, Some(Orientation::West), false));
    cells[22] = Some(Token::new(
        TokenType::BeamSplitter,
        Some(Orientation::East),
        false,
    ));
    cells[20] = Some(Token::new(
        TokenType::TargetMirror,
        Some(Orientation::East),
        false,
    ));
    cells[17] = Some(Token::new(
        TokenType::Checkpoint,
        Some(Orientation::South),
        false,
    ));
    cells[12] = Some(Token::new(TokenType::CellBlocker, None, false));
    cells[2] = Some(Token::new(
        TokenType::DoubleMirror,
        Some(Orientation::South),
        false,
    ));

    let node = SolverNode::new(cells, vec![], 1);
    let first = node.check();

    let mut reset_board = SolverNode {
        cells: first.grid.clone_cells(),
        tokens_to_be_added: vec![],
        tokens_to_be_added_shuffled: vec![],
        targets: 1,
    };
    reset_board.reset_tokens();
    let second = reset_board.check();

    for i in 0..25 {
        let a = &first.grid.cells[i];
        let b = &second.grid.cells[i];
        match (a, b) {
            (None, None) => {}
            (Some(x), Some(y)) => {
                assert_eq!(x.lit, y.lit);
                assert_eq!(x.target_lit(), y.target_lit());
            }
            _ => panic!("placement changed between runs"),
        }
    }
}

// A token's reset restores its construction-time lit state.
#[test]
fn token_reset_restores_defaults() {
    let mut t = Token::new(TokenType::TargetMirror, Some(Orientation::North), false);
    let _ = t.outbound_lasers_given_inbound_laser_direction(&Orientation::South);
    assert!(t.lit);
    assert_eq!(t.target_lit(), Some(true));
    t.reset();
    assert!(!t.lit);
    assert_eq!(t.target_lit(), Some(false));
}

#[test]
fn toggle_must_light_only_on_targets() {
    let mut t = Token::new(TokenType::TargetMirror, None, false);
    t.toggle_must_light();
    assert!(t.must_light());
    t.toggle_must_light();
    assert!(!t.must_light());

    let mut c = Token::new(TokenType::Checkpoint, None, false);
    c.toggle_must_light();
    assert!(!c.must_light());
}

#[test]
fn orientation_ranges_follow_symmetry() {
    assert_eq!(TokenType::Laser.orientation_range(), vec![0, 1, 2, 3]);
    assert_eq!(TokenType::TargetMirror.orientation_range(), vec![0, 1, 2, 3]);
    assert_eq!(TokenType::BeamSplitter.orientation_range(), vec![0, 1]);
    assert_eq!(TokenType::DoubleMirror.orientation_range(), vec![0, 1]);
    assert_eq!(TokenType::Checkpoint.orientation_range(), vec![0, 1]);
    assert_eq!(TokenType::CellBlocker.orientation_range(), vec![0]);
}

#[test]
fn next_position_geometry() {
    let nw = ActiveLaser {
        cell_index: 20,
        orientation: Orientation::North,
    };
    assert_eq!(nw.next_position(), None);
    let step = ActiveLaser {
        cell_index: 7,
        orientation: Orientation::North,
    };
    assert_eq!(step.next_position(), Some(12));
    let east_edge = ActiveLaser {
        cell_index: 9,
        orientation: Orientation::East,
    };
    assert_eq!(east_edge.next_position(), None);
    let west = ActiveLaser {
        cell_index: 13,
        orientation: Orientation::West,
    };
    assert_eq!(west.next_position(), Some(12));
    let south_off = ActiveLaser {
        cell_index: 3,
        orientation: Orientation::South,
    };
    assert_eq!(south_off.next_position(), None);
}

// A cell blocker is transparent: the beam passes straight through it.
#[test]
fn cell_blocker_passes_beam() {
    let mut t = Token::new(TokenType::CellBlocker, None, false);
    let r = t.outbound_lasers_given_inbound_laser_direction(&Orientation::East);
    assert_eq!(
        r.0,
        LaserTokenInteractionResult::OutboundLaser(Orientation::East)
    );
    assert!(t.lit);
}

// A valid puzzle that admits no assignment reports no solution rather than
// an error.
#[test]
fn unsolvable_puzzle_reports_none() {
    let mut cells: Vec<Option<Token>> = vec![None; 25];
    // Laser firing straight off the board away from the only target.
    cells[2] = Some(Token::new(
        TokenType::Laser,
        Some(Orientation::North),
        false,
    ));
    cells[4] = Some(Token::new(
        TokenType::TargetMirror,
        Some(Orientation::West),
        false,
    ));
    let mut solver = LaserMazeSolver::new(cells, vec![], 1);
    assert_eq!(solver.solve().unwrap(), None);
}
