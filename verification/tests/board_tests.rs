use puyo_core::bitboard::SimpleBitBoardPuyoBoard;
use puyo_core::traits::{PlacementError, PuyoBoard};
use puyo_core::types::{ChainInfo, Position, PuyoColor};

#[test]
fn test_new_board_is_empty() {
    let board = SimpleBitBoardPuyoBoard::new();
    assert_eq!(
        [
            board.get_column_raw(0),
            board.get_column_raw(1),
            board.get_column_raw(2),
            board.get_column_raw(3),
            board.get_column_raw(4),
            board.get_column_raw(5),
        ],
        [0; 6]
    );
}

#[test]
fn test_place_and_get_puyo() {
    let mut board = SimpleBitBoardPuyoBoard::new();
    let pos = Position::new(0, 0);

    board.place_puyo(pos, PuyoColor::Red).unwrap();
    assert_eq!(board.get_puyo(pos), Some(PuyoColor::Red));
}

#[test]
fn test_example_from_instruction() {
    let mut board = SimpleBitBoardPuyoBoard::new();

    board.place_puyo(Position::new(0, 0), PuyoColor::Red).unwrap();
    board.place_puyo(Position::new(0, 1), PuyoColor::Blue).unwrap();
    board.place_puyo(Position::new(0, 2), PuyoColor::Green).unwrap();

    let expected_bits = 0b100_011_010u64;
    assert_eq!(board.get_column_raw(0) & 0b111111111, expected_bits);
}

#[test]
fn test_gravity() {
    let mut board = SimpleBitBoardPuyoBoard::new();

    board.place_puyo(Position::new(0, 5), PuyoColor::Red).unwrap();
    board.place_puyo(Position::new(0, 10), PuyoColor::Blue).unwrap();

    board.apply_gravity();

    assert_eq!(board.get_puyo(Position::new(0, 0)), Some(PuyoColor::Red));
    assert_eq!(board.get_puyo(Position::new(0, 1)), Some(PuyoColor::Blue));
    assert_eq!(board.get_puyo(Position::new(0, 5)), Some(PuyoColor::Empty));
    assert_eq!(board.get_puyo(Position::new(0, 10)), Some(PuyoColor::Empty));
}

#[test]
fn test_column_height_optimization() {
    let mut board = SimpleBitBoardPuyoBoard::new();

    assert_eq!(board.get_column_height(0), 0);

    board.place_puyo(Position::new(0, 0), PuyoColor::Red).unwrap();
    assert_eq!(board.get_column_height(0), 1);

    board.place_puyo(Position::new(0, 1), PuyoColor::Blue).unwrap();
    assert_eq!(board.get_column_height(0), 2);

    board.place_puyo(Position::new(0, 2), PuyoColor::Green).unwrap();
    assert_eq!(board.get_column_height(0), 3);

    board.place_puyo(Position::new(0, 12), PuyoColor::Yellow).unwrap();
    assert_eq!(board.get_column_height(0), 13);

    assert_eq!(board.get_column_height(1), 0);

    board.place_puyo(Position::new(1, 5), PuyoColor::Purple).unwrap();
    assert_eq!(board.get_column_height(1), 6);

    assert_eq!(board.get_column_height(6), 0);
}

#[test]
fn place_rejects_out_of_range_for_every_color() {
    let colors = [
        PuyoColor::Empty,
        PuyoColor::Garbage,
        PuyoColor::Red,
        PuyoColor::Blue,
        PuyoColor::Green,
        PuyoColor::Yellow,
        PuyoColor::Purple,
    ];
    for c in colors {
        let mut board = SimpleBitBoardPuyoBoard::new();
        assert_eq!(
            board.place_puyo(Position::new(6, 0), c),
            Err(PlacementError::OutOfBounds)
        );
        assert_eq!(
            board.place_puyo(Position::new(0, 13), c),
            Err(PlacementError::OutOfBounds)
        );
    }
}

#[test]
fn place_rejects_occupied() {
    let mut board = SimpleBitBoardPuyoBoard::new();
    assert_eq!(board.place_puyo(Position::new(0, 0), PuyoColor::Red), Ok(()));
    assert_eq!(
        board.place_puyo(Position::new(0, 0), PuyoColor::Blue),
        Err(PlacementError::PositionOccupied)
    );
    // the first placement is untouched by the failed one
    assert_eq!(board.get_puyo(Position::new(0, 0)), Some(PuyoColor::Red));
}

#[test]
fn terminal_gate() {
    let mut board = SimpleBitBoardPuyoBoard::new();
    assert!(!board.is_game_over());
    assert!(Position::new(2, 11).is_game_over_position());

    board.place_puyo(Position::new(2, 11), PuyoColor::Red).unwrap();
    assert!(board.is_game_over());

    // a different empty cell reports game over
    assert_eq!(
        board.place_puyo(Position::new(0, 0), PuyoColor::Blue),
        Err(PlacementError::GameOver)
    );
    // the occupied terminal cell itself still reports occupied, not game over
    assert_eq!(
        board.place_puyo(Position::new(2, 11), PuyoColor::Blue),
        Err(PlacementError::PositionOccupied)
    );
}

#[test]
fn gravity_is_idempotent() {
    let mut board = SimpleBitBoardPuyoBoard::new();
    board.place_puyo(Position::new(0, 3), PuyoColor::Red).unwrap();
    board.place_puyo(Position::new(0, 7), PuyoColor::Blue).unwrap();
    board.place_puyo(Position::new(2, 10), PuyoColor::Garbage).unwrap();
    board.place_puyo(Position::new(5, 12), PuyoColor::Green).unwrap();

    board.apply_gravity();
    let once = board.clone();
    board.apply_gravity();
    assert_eq!(board, once);
}

#[test]
fn gravity_preserves_column_order() {
    let mut board = SimpleBitBoardPuyoBoard::new();
    board.place_puyo(Position::new(0, 5), PuyoColor::Red).unwrap();
    board.place_puyo(Position::new(0, 10), PuyoColor::Blue).unwrap();

    board.apply_gravity();

    assert_eq!(board.get_puyo(Position::new(0, 0)), Some(PuyoColor::Red));
    assert_eq!(board.get_puyo(Position::new(0, 1)), Some(PuyoColor::Blue));
    for row in 2..13 {
        assert_eq!(board.get_puyo(Position::new(0, row)), Some(PuyoColor::Empty));
    }
    assert_eq!(board.get_column_height(0), 2);
}

#[test]
fn height_matches_occupied_count_after_gravity() {
    let mut board = SimpleBitBoardPuyoBoard::new();
    let placements = [
        (0, 2, PuyoColor::Red),
        (0, 5, PuyoColor::Blue),
        (0, 9, PuyoColor::Garbage),
        (3, 1, PuyoColor::Green),
        (3, 4, PuyoColor::Green),
        (3, 6, PuyoColor::Yellow),
        (5, 12, PuyoColor::Purple),
    ];
    for (col, row, color) in placements {
        board.place_puyo(Position::new(col, row), color).unwrap();
    }
    board.apply_gravity();
    for col in 0..6 {
        let mut occupied: usize = 0;
        for row in 0..13 {
            if board.get_puyo(Position::new(col, row)) != Some(PuyoColor::Empty) {
                occupied += 1;
            }
        }
        assert_eq!(board.get_column_height(col), occupied);
    }
}

#[test]
fn clear_resets_the_board() {
    let mut board = SimpleBitBoardPuyoBoard::new();
    board.place_puyo(Position::new(1, 0), PuyoColor::Red).unwrap();
    board.place_puyo(Position::new(2, 11), PuyoColor::Blue).unwrap();
    assert!(board.is_game_over());

    board.clear();

    assert!(!board.is_game_over());
    for col in 0..6 {
        assert_eq!(board.get_column_raw(col), 0);
        assert_eq!(board.get_column_height(col), 0);
    }
}

#[test]
fn reads_degrade_to_sentinels_out_of_range() {
    let board = SimpleBitBoardPuyoBoard::new();
    assert_eq!(board.get_puyo(Position::new(6, 0)), None);
    assert_eq!(board.get_puyo(Position::new(0, 13)), None);
    assert_eq!(board.get_column_raw(6), 0);
    assert_eq!(board.get_column_height(6), 0);
}

#[test]
fn display_renders_glyphs_top_row_first() {
    let mut board = SimpleBitBoardPuyoBoard::new();
    board.place_puyo(Position::new(0, 0), PuyoColor::Red).unwrap();
    board.place_puyo(Position::new(1, 0), PuyoColor::Garbage).unwrap();
    board.place_puyo(Position::new(2, 0), PuyoColor::Blue).unwrap();
    board.place_puyo(Position::new(3, 0), PuyoColor::Green).unwrap();
    board.place_puyo(Position::new(4, 0), PuyoColor::Yellow).unwrap();
    board.place_puyo(Position::new(5, 0), PuyoColor::Purple).unwrap();
    board.place_puyo(Position::new(2, 12), PuyoColor::Red).unwrap();

    let mut expected = String::new();
    expected.push_str("..R...\n");
    for _ in 0..11 {
        expected.push_str("......\n");
    }
    expected.push_str("R#BGYP\n");
    assert_eq!(board.display(), expected);
}

#[test]
fn default_board_is_empty_and_chain_info_counts() {
    let board = SimpleBitBoardPuyoBoard::default();
    for col in 0..6 {
        assert_eq!(board.get_column_raw(col), 0);
    }
    let mut info = ChainInfo::default();
    assert_eq!(info.chain_count, 0);
    info.add_chain();
    info.add_chain();
    assert_eq!(info.chain_count, 2);
    assert_eq!(ChainInfo::new().chain_count, 0);
}

#[test]
fn color_codes_round_trip() {
    for value in 0u8..7 {
        let color = PuyoColor::from_u8(value).unwrap();
        assert_eq!(color.to_u8(), value);
    }
    assert_eq!(PuyoColor::from_u8(7), None);
    assert_eq!(PuyoColor::from_u8(255), None);
    assert!(!PuyoColor::Empty.is_colored_puyo());
    assert!(!PuyoColor::Garbage.is_colored_puyo());
    assert!(PuyoColor::Red.is_colored_puyo());
    assert!(PuyoColor::Blue.is_colored_puyo());
    assert!(PuyoColor::Green.is_colored_puyo());
    assert!(PuyoColor::Yellow.is_colored_puyo());
    assert!(PuyoColor::Purple.is_colored_puyo());
}

#[test]
fn position_predicates() {
    assert!(Position::new(0, 0).is_valid_board_position());
    assert!(Position::new(5, 12).is_valid_board_position());
    assert!(!Position::new(6, 0).is_valid_board_position());
    assert!(!Position::new(0, 13).is_valid_board_position());
    assert!(Position::new(2, 11).is_game_over_position());
    assert!(!Position::new(2, 10).is_game_over_position());
    assert!(!Position::new(1, 11).is_game_over_position());
}

#[test]
fn placement_error_descriptions() {
    assert_eq!(PlacementError::OutOfBounds.describe(), "Position is out of bounds");
    assert_eq!(
        PlacementError::PositionOccupied.describe(),
        "Position is already occupied"
    );
    assert_eq!(PlacementError::GameOver.describe(), "Game is over");
}

#[test]
fn cell_codes_read_totally() {
    let mut board = SimpleBitBoardPuyoBoard::new();
    board.place_puyo(Position::new(4, 0), PuyoColor::Red).unwrap();
    assert_eq!(board.get_puyo_bits(4, 0), 2);
    assert_eq!(board.get_puyo_bits(4, 1), 0);
    assert_eq!(board.get_puyo_bits(6, 0), 0);
    assert_eq!(board.get_puyo_bits(0, 13), 0);
}
