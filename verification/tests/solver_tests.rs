use laser_maze::{LaserMazeSolver, Orientation, Token, TokenType};

// /| -- /  -- X
//       ||
//       []
// /| -- /
//       \\ -- |/
#[test]
fn test_checker_all_tokens() {
    let mut cells: Vec<Option<Token>> = vec![None; 25];

    // laser in top right
    cells[24] = Some(Token::new(TokenType::Laser, Some(Orientation::West), false));

    // splitting mirror piece on center col, top row cell
    cells[22] = Some(Token::new(
        TokenType::BeamSplitter,
        Some(Orientation::East),
        false,
    ));

    // target 1: top left cell, target facing east
    cells[20] = Some(Token::new(
        TokenType::TargetMirror,
        Some(Orientation::East),
        false,
    ));

    // gate piece, middle col  row[3]
    cells[17] = Some(Token::new(
        TokenType::Checkpoint,
        Some(Orientation::South),
        false,
    ));

    // block piece, true center
    cells[12] = Some(Token::new(
        TokenType::CellBlocker,
        Some(Orientation::West),
        false,
    ));

    // splitting mirror piece on center col, row[1] cell
    cells[7] = Some(Token::new(
        TokenType::BeamSplitter,
        Some(Orientation::East),
        false,
    ));

    // double mirror piece on bottom middle cell, facing south
    cells[2] = Some(Token::new(
        TokenType::DoubleMirror,
        Some(Orientation::South),
        false,
    ));

    // target 2: left col, row[1] cell, facing east
    cells[5] = Some(Token::new(
        TokenType::TargetMirror,
        Some(Orientation::East),
        false,
    ));

    // target 3: bottom right cell, facing west
    cells[4] = Some(Token::new(
        TokenType::TargetMirror,
        Some(Orientation::West),
        false,
    ));

    let mut solver = LaserMazeSolver::new(cells, vec![], 3);
    let result = solver
        .stack
        .pop()
        .expect("LaserMazeSolver initializes with a node")
        .check()
        .solved();
    assert!(result)
}

#[test]
fn test_solver_simple() {
    let mut cells: Vec<Option<Token>> = vec![None; 25];

    cells[0] = Some(Token::new(
        TokenType::Laser,
        Some(Orientation::North),
        false,
    ));
    cells[6] = Some(Token::new(
        TokenType::TargetMirror,
        Some(Orientation::West),
        true,
    ));
    cells[10] = Some(Token::new(
        TokenType::TargetMirror,
        Some(Orientation::South),
        false,
    ));

    let mut tokens_to_be_added = vec![];
    tokens_to_be_added.push(Token::new(TokenType::BeamSplitter, None, false));

    let mut solver = LaserMazeSolver::new(cells, tokens_to_be_added, 2);

    let result = solver.solve();

    println!("{:?}", result.unwrap().unwrap());
}

#[test]
fn test_solver_puzzle_25() {
    let mut cells: Vec<Option<Token>> = vec![None; 25];

    cells[3] = Some(Token::new(TokenType::TargetMirror, None, true));
    cells[7] = Some(Token::new(TokenType::Checkpoint, None, false));
    cells[8] = Some(Token::new(TokenType::BeamSplitter, None, false));
    cells[20] = Some(Token::new(TokenType::Laser, None, false));
    cells[23] = Some(Token::new(
        TokenType::CellBlocker,
        Some(Orientation::East),
        false,
    ));

    let mut tokens_to_be_added = vec![];
    tokens_to_be_added.push(Token::new(TokenType::TargetMirror, None, true));
    tokens_to_be_added.push(Token::new(TokenType::DoubleMirror, None, false));

    let mut solver = LaserMazeSolver::new(cells, tokens_to_be_added, 2);

    let result = solver.solve();

    println!("{:?}", result.unwrap().unwrap());
}

#[test]
fn test_solver_puzzle_40() {
    let mut cells: Vec<Option<Token>> = vec![None; 25];

    cells[3] = Some(Token::new(
        TokenType::TargetMirror,
        Some(Orientation::North),
        true,
    ));
    cells[9] = Some(Token::new(
        TokenType::TargetMirror,
        Some(Orientation::West),
        true,
    ));
    cells[11] = Some(Token::new(
        TokenType::DoubleMirror,
        Some(Orientation::North),
        false,
    ));
    cells[17] = Some(Token::new(
        TokenType::Checkpoint,
        Some(Orientation::North),
        false,
    ));
    cells[20] = Some(Token::new(TokenType::Laser, None, false));

    let mut tokens_to_be_added = vec![];
    tokens_to_be_added.push(Token::new(TokenType::TargetMirror, None, false));
    tokens_to_be_added.push(Token::new(TokenType::TargetMirror, None, false));
    tokens_to_be_added.push(Token::new(TokenType::TargetMirror, None, false));
    tokens_to_be_added.push(Token::new(TokenType::BeamSplitter, None, false));

    let mut solver = LaserMazeSolver::new(cells, tokens_to_be_added, 2);

    let result = solver.solve();

    println!("{:?}", result.unwrap().unwrap());
}

#[test]
fn test_solver_puzzle_50() {
    let mut cells: Vec<Option<Token>> = vec![None; 25];

    cells[3] = Some(Token::new(
        TokenType::CellBlocker,
        Some(Orientation::North),
        false,
    ));
    cells[4] = Some(Token::new(TokenType::TargetMirror, None, true));
    cells[6] = Some(Token::new(
        TokenType::BeamSplitter,
        Some(Orientation::North),
        false,
    ));
    cells[7] = Some(Token::new(TokenType::TargetMirror, None, true));
    cells[13] = Some(Token::new(
        TokenType::Checkpoint,
        Some(Orientation::East),
        false,
    ));
    cells[20] = Some(Token::new(TokenType::TargetMirror, None, true));

    let mut tokens_to_be_added = vec![];
    tokens_to_be_added.push(Token::new(TokenType::TargetMirror, None, false));
    tokens_to_be_added.push(Token::new(TokenType::TargetMirror, None, false));
    tokens_to_be_added.push(Token::new(TokenType::BeamSplitter, None, false));
    tokens_to_be_added.push(Token::new(TokenType::Laser, None, false));

    let mut solver = LaserMazeSolver::new(cells, tokens_to_be_added, 3);

    let result = solver.solve();

    println!("{:?}", result.unwrap().unwrap());
}

// 2nd to last puzzle with the laser's position not given
#[test]
fn test_solver_puzzle_54() {
    let mut cells: Vec<Option<Token>> = vec![None; 25];

    cells[3] = Some(Token::new(TokenType::TargetMirror, None, false));
    cells[6] = Some(Token::new(
        TokenType::TargetMirror,
        Some(Orientation::North),
        true,
    ));
    cells[12] = Some(Token::new(
        TokenType::TargetMirror,
        Some(Orientation::South),
        true,
    ));
    cells[18] = Some(Token::new(TokenType::DoubleMirror, None, false));
    cells[21] = Some(Token::new(TokenType::BeamSplitter, None, false));
    cells[24] = Some(Token::new(TokenType::TargetMirror, None, false));

    let mut tokens_to_be_added = vec![];
    tokens_to_be_added.push(Token::new(TokenType::Laser, None, false));
    tokens_to_be_added.push(Token::new(TokenType::TargetMirror, None, false));
    tokens_to_be_added.push(Token::new(TokenType::BeamSplitter, None, false));

    let mut solver = LaserMazeSolver::new(cells, tokens_to_be_added, 3);

    let result = solver.solve();

    println!("{:?}", result.unwrap());
}

#[test]
fn test_solver_puzzle_55() {
    let mut cells: Vec<Option<Token>> = vec![None; 25];

    cells[2] = Some(Token::new(TokenType::TargetMirror, None, false));
    cells[6] = Some(Token::new(TokenType::TargetMirror, None, false));
    cells[9] = Some(Token::new(TokenType::TargetMirror, None, false));
    cells[12] = Some(Token::new(TokenType::TargetMirror, None, false));
    cells[18] = Some(Token::new(TokenType::TargetMirror, None, false));
    cells[3] = Some(Token::new(TokenType::DoubleMirror, None, false));
    cells[16] = Some(Token::new(TokenType::Laser, None, false));

    let mut tokens_to_be_added = vec![];
    tokens_to_be_added.push(Token::new(TokenType::Checkpoint, None, false));
    tokens_to_be_added.push(Token::new(TokenType::BeamSplitter, None, false));

    let mut solver = LaserMazeSolver::new(cells, tokens_to_be_added, 2);

    let result = solver.solve();

    println!("{:?}", result.unwrap().unwrap());
}

#[test]
fn test_solver_puzzle_59() {
    let mut cells: Vec<Option<Token>> = vec![None; 25];

    cells[6] = Some(Token::new(
        TokenType::Laser,
        Some(Orientation::North),
        false,
    ));
    cells[8] = Some(Token::new(TokenType::Checkpoint, None, false));
    cells[10] = Some(Token::new(TokenType::TargetMirror, None, true));
    cells[12] = Some(Token::new(TokenType::DoubleMirror, None, false));
    cells[15] = Some(Token::new(TokenType::TargetMirror, None, false));
    cells[17] = Some(Token::new(
        TokenType::CellBlocker,
        Some(Orientation::East),
        false,
    ));
    cells[18] = Some(Token::new(TokenType::BeamSplitter, None, false));

    let mut tokens_to_be_added = vec![];
    tokens_to_be_added.push(Token::new(TokenType::TargetMirror, None, false));
    tokens_to_be_added.push(Token::new(TokenType::TargetMirror, None, false));
    tokens_to_be_added.push(Token::new(TokenType::TargetMirror, None, false));
    tokens_to_be_added.push(Token::new(TokenType::BeamSplitter, None, false));

    let mut solver = LaserMazeSolver::new(cells, tokens_to_be_added, 3);

    let result = solver.solve();

    println!("{:?}", result.unwrap().unwrap());
}

#[test]
fn test_solver_puzzle_60() {
    let mut cells: Vec<Option<Token>> = vec![None; 25];

    cells[9] = Some(Token::new(
        TokenType::TargetMirror,
        Some(Orientation::North),
        true,
    ));
    cells[23] = Some(Token::new(
        TokenType::TargetMirror,
        Some(Orientation::West),
        true,
    ));
    cells[15] = Some(Token::new(
        TokenType::TargetMirror,
        Some(Orientation::South),
        false,
    ));
    cells[1] = Some(Token::new(TokenType::DoubleMirror, None, false));
    cells[12] = Some(Token::new(TokenType::Checkpoint, None, false));
    cells[11] = Some(Token::new(
        TokenType::CellBlocker,
        Some(Orientation::South),
        false,
    ));

    let mut tokens_to_be_added = vec![];
    tokens_to_be_added.push(Token::new(TokenType::Laser, None, false));
    tokens_to_be_added.push(Token::new(TokenType::BeamSplitter, None, false));
    tokens_to_be_added.push(Token::new(TokenType::BeamSplitter, None, false));
    tokens_to_be_added.push(Token::new(TokenType::TargetMirror, None, false));
    tokens_to_be_added.push(Token::new(TokenType::TargetMirror, None, false));

    let mut solver = LaserMazeSolver::new(cells, tokens_to_be_added, 3);

    let result = solver.solve();

    println!("{:?}", result.unwrap().unwrap());
}

#[test]
// bonus 99 - the last bonus puzzle with the laser position not given
fn test_solver_puzzle_153() {
    let mut cells: Vec<Option<Token>> = vec![None; 25];

    cells[9] = Some(Token::new(
        TokenType::Checkpoint,
        Some(Orientation::North),
        false,
    ));
    cells[11] = Some(Token::new(
        TokenType::BeamSplitter,
        Some(Orientation::North),
        false,
    ));
    cells[13] = Some(Token::new(
        TokenType::DoubleMirror,
        Some(Orientation::East),
        false,
    ));
    cells[16] = Some(Token::new(
        TokenType::TargetMirror,
        Some(Orientation::West),
        true,
    ));
    cells[18] = Some(Token::new(
        TokenType::CellBlocker,
        Some(Orientation::North),
        false,
    ));

    let mut tokens_to_be_added = vec![];
    tokens_to_be_added.push(Token::new(TokenType::TargetMirror, None, false));
    tokens_to_be_added.push(Token::new(TokenType::TargetMirror, None, false));
    tokens_to_be_added.push(Token::new(TokenType::TargetMirror, None, false));
    tokens_to_be_added.push(Token::new(TokenType::TargetMirror, None, false));
    tokens_to_be_added.push(Token::new(TokenType::BeamSplitter, None, false));
    tokens_to_be_added.push(Token::new(TokenType::Laser, None, false));

    let mut solver = LaserMazeSolver::new(cells, tokens_to_be_added, 3);

    let result = solver.solve();

    println!("{:?}", result.unwrap().unwrap());
}

#[test]
fn test_solver_puzzle_62() {
    // Bonus Challenge 2
    let mut cells: Vec<Option<Token>> = vec![None; 25];
    cells[0] = Some(Token::new(TokenType::TargetMirror, None, false));
    cells[11] = Some(Token::new(TokenType::Laser, None, false));
    cells[14] = Some(Token::new(TokenType::DoubleMirror, None, false));
    cells[17] = Some(Token::new(
        TokenType::Checkpoint,
        Some(Orientation::East),
        false,
    ));
    cells[22] = Some(Token::new(TokenType::TargetMirror, None, false));

    let mut tokens_to_be_added = vec![];
    tokens_to_be_added.push(Token::new(TokenType::TargetMirror, None, false));
    tokens_to_be_added.push(Token::new(TokenType::TargetMirror, None, false));
    tokens_to_be_added.push(Token::new(TokenType::TargetMirror, None, false));
    tokens_to_be_added.push(Token::new(TokenType::BeamSplitter, None, false));
    tokens_to_be_added.push(Token::new(TokenType::BeamSplitter, None, false));

    let mut solver = LaserMazeSolver::new(cells, tokens_to_be_added, 2);

    let result = solver.solve();

    let solution = result.unwrap().unwrap();
    println!("{:?}", solution);

    let split_1 = solution[13].clone().unwrap();
    let split_2 = solution[18].clone().unwrap();

    assert_eq!(split_1.type_(), &TokenType::BeamSplitter);
    assert_eq!(split_2.type_(), &TokenType::BeamSplitter);
}

// bonus 99
#[test]
fn test_solver_puzzle_159() {
    let mut cells: Vec<Option<Token>> = vec![None; 25];

    cells[10] = Some(Token::new(
        TokenType::Checkpoint,
        Some(Orientation::North),
        false,
    ));
    cells[16] = Some(Token::new(
        TokenType::DoubleMirror,
        Some(Orientation::North),
        false,
    ));
    cells[20] = Some(Token::new(
        TokenType::CellBlocker,
        Some(Orientation::North),
        false,
    ));
    cells[23] = Some(Token::new(TokenType::Laser, None, false));

    let mut tokens_to_be_added = vec![];
    tokens_to_be_added.push(Token::new(TokenType::TargetMirror, None, false));
    tokens_to_be_added.push(Token::new(TokenType::TargetMirror, None, false));
    tokens_to_be_added.push(Token::new(TokenType::TargetMirror, None, false));
    tokens_to_be_added.push(Token::new(TokenType::TargetMirror, None, false));
    tokens_to_be_added.push(Token::new(TokenType::BeamSplitter, None, false));
    tokens_to_be_added.push(Token::new(TokenType::BeamSplitter, None, false));

    let mut solver = LaserMazeSolver::new(cells, tokens_to_be_added, 3);

    let result = solver.solve();

    println!("{:?}", result.unwrap().unwrap());
}

#[test]
fn wrong_number_targets() {
    let mut solver = LaserMazeSolver::new(vec![None; 25], vec![], 4);
    let result = solver.solve();
    match result {
        Ok(_) => panic!("Test failed, should error"),
        Err(s) => assert_eq!(s, String::from("Invalid number of targets!")),
    }
}

#[test]
fn no_laser() {
    let mut solver = LaserMazeSolver::new(vec![None; 25], vec![], 1);
    let result = solver.solve();
    match result {
        Ok(_) => panic!("Test failed, should error"),
        Err(s) => assert_eq!(s, String::from("Invalid piece count for piece type Laser!")),
    }
}
