use laser_maze::{Orientation, SolverNode, Token, TokenType};

#[test]
fn test_solver_puzzle_62_debug() {
    // A board that lights the required two targets with no beam leaving the
    // board is still not solved while a piece waits to be placed.
    let node = SolverNode {
        cells: vec![
            Some(Token::new(
                TokenType::TargetMirror,
                Some(Orientation::North),
                false,
            )),
            None,
            None,
            None,
            None,
            None,
            None,
            None,
            None,
            None,
            None,
            Some(Token::new(TokenType::Laser, Some(Orientation::East), false)),
            None,
            Some(Token::new(
                TokenType::BeamSplitter,
                Some(Orientation::East),
                false,
            )),
            Some(Token::new(
                TokenType::DoubleMirror,
                Some(Orientation::East),
                false,
            )),
            Some(Token::new(
                TokenType::TargetMirror,
                Some(Orientation::West),
                false,
            )),
            None,
            Some(Token::new(
                TokenType::Checkpoint,
                Some(Orientation::East),
                false,
            )),
            None,
            Some(Token::new(
                TokenType::TargetMirror,
                Some(Orientation::North),
                false,
            )),
            None,
            None,
            Some(Token::new(
                TokenType::TargetMirror,
                Some(Orientation::East),
                false,
            )),
            Some(Token::new(
                TokenType::TargetMirror,
                Some(Orientation::North),
                false,
            )),
            None,
        ],
        tokens_to_be_added: vec![],
        tokens_to_be_added_shuffled: vec![Token::new(TokenType::BeamSplitter, None, false)],
        targets: 2,
    };
    let checker = node.check();
    println!("Checker after running node.check():\n{:?}\n---", checker);
    assert!(checker.remaining_tokens_to_be_added());
    assert!(!checker.solved());
}

#[test]
fn test_checker_simple() {
    let node = SolverNode {
        cells: vec![
            Some(Token::new(TokenType::Laser, Some(Orientation::East), false)),
            Some(Token::new(
                TokenType::BeamSplitter,
                Some(Orientation::West),
                false,
            )),
            Some(Token::new(
                TokenType::TargetMirror,
                Some(Orientation::West),
                false,
            )),
            None,
            None,
            None,
            Some(Token::new(
                TokenType::TargetMirror,
                Some(Orientation::South),
                false,
            )),
            None,
            None,
            None,
            None,
            None,
            None,
            None,
            None,
            None,
            None,
            None,
            None,
            None,
            None,
            None,
            None,
            None,
            None,
        ],
        tokens_to_be_added: vec![],
        tokens_to_be_added_shuffled: vec![],
        targets: 2,
    };
    let checker = node.check();
    assert!(checker.solved());
}
