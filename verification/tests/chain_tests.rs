use puyo_core::bitboard::SimpleBitBoardPuyoBoard;
use puyo_core::traits::PuyoBoard;
use puyo_core::types::{Position, PuyoColor};

#[test]
fn four_connected_cells_are_cleared() {
    let mut board = SimpleBitBoardPuyoBoard::new();
    for col in 0..4 {
        board.place_puyo(Position::new(col, 0), PuyoColor::Red).unwrap();
    }
    let info = board.execute_chains();
    assert_eq!(info.chain_count, 1);
    for col in 0..4 {
        assert_eq!(board.get_puyo(Position::new(col, 0)), Some(PuyoColor::Empty));
    }
}

#[test]
fn three_connected_cells_are_left_untouched() {
    let mut board = SimpleBitBoardPuyoBoard::new();
    for col in 0..3 {
        board.place_puyo(Position::new(col, 0), PuyoColor::Red).unwrap();
    }
    let info = board.execute_chains();
    assert_eq!(info.chain_count, 0);
    for col in 0..3 {
        assert_eq!(board.get_puyo(Position::new(col, 0)), Some(PuyoColor::Red));
    }
}

#[test]
fn garbage_never_joins_a_group() {
    let mut board = SimpleBitBoardPuyoBoard::new();
    for col in 0..5 {
        board.place_puyo(Position::new(col, 0), PuyoColor::Garbage).unwrap();
    }
    // three reds touching the garbage row stay too small to clear
    for col in 0..3 {
        board.place_puyo(Position::new(col, 1), PuyoColor::Red).unwrap();
    }
    let info = board.execute_chains();
    assert_eq!(info.chain_count, 0);
    for col in 0..5 {
        assert_eq!(board.get_puyo(Position::new(col, 0)), Some(PuyoColor::Garbage));
    }
}

#[test]
fn a_square_of_four_is_one_group() {
    let mut board = SimpleBitBoardPuyoBoard::new();
    board.place_puyo(Position::new(0, 0), PuyoColor::Green).unwrap();
    board.place_puyo(Position::new(1, 0), PuyoColor::Green).unwrap();
    board.place_puyo(Position::new(0, 1), PuyoColor::Green).unwrap();
    board.place_puyo(Position::new(1, 1), PuyoColor::Green).unwrap();
    let group = board.find_connected_group(0, 0, PuyoColor::Green);
    assert_eq!(group.len(), 4);
    for expected in [(0, 0), (1, 0), (0, 1), (1, 1)] {
        assert!(group.iter().any(|p| (p.x, p.y) == expected));
    }
}

#[test]
fn diagonal_cells_are_not_connected() {
    let mut board = SimpleBitBoardPuyoBoard::new();
    board.place_puyo(Position::new(0, 0), PuyoColor::Blue).unwrap();
    board.place_puyo(Position::new(1, 1), PuyoColor::Blue).unwrap();
    let group = board.find_connected_group(0, 0, PuyoColor::Blue);
    assert_eq!(group.len(), 1);
    assert_eq!((group[0].x, group[0].y), (0, 0));
}

#[test]
fn group_of_wrong_color_seed_is_empty() {
    let mut board = SimpleBitBoardPuyoBoard::new();
    board.place_puyo(Position::new(0, 0), PuyoColor::Blue).unwrap();
    let group = board.find_connected_group(0, 0, PuyoColor::Red);
    assert_eq!(group.len(), 0);
    let out_of_range = board.find_connected_group(6, 0, PuyoColor::Blue);
    assert_eq!(out_of_range.len(), 0);
}

#[test]
fn has_n_chain_respects_the_threshold() {
    let mut board = SimpleBitBoardPuyoBoard::new();
    for col in 0..4 {
        board.place_puyo(Position::new(col, 0), PuyoColor::Yellow).unwrap();
    }
    assert!(board.has_n_chain(4));
    assert!(board.has_n_chain(3));
    assert!(!board.has_n_chain(5));
}

#[test]
fn collect_removable_groups_finds_every_member() {
    let mut board = SimpleBitBoardPuyoBoard::new();
    for col in 0..4 {
        board.place_puyo(Position::new(col, 0), PuyoColor::Purple).unwrap();
    }
    // a small group of another color must not be collected
    board.place_puyo(Position::new(5, 0), PuyoColor::Red).unwrap();
    let removable = board.collect_removable_groups(4);
    let expected = [(0usize, 0usize), (1, 0), (2, 0), (3, 0)];
    for e in expected {
        assert!(removable.iter().any(|p| (p.x, p.y) == e));
    }
    for p in &removable {
        assert!(expected.contains(&(p.x, p.y)));
    }
}

#[test]
fn collect_removable_groups_empty_when_settled() {
    let mut board = SimpleBitBoardPuyoBoard::new();
    for col in 0..3 {
        board.place_puyo(Position::new(col, 0), PuyoColor::Purple).unwrap();
    }
    assert!(board.collect_removable_groups(4).is_empty());
    assert_eq!(board.collect_removable_groups(3).len(), 9);
}

#[test]
fn resolving_an_empty_board_reports_no_chain() {
    let mut board = SimpleBitBoardPuyoBoard::new();
    let info = board.execute_chains();
    assert_eq!(info.chain_count, 0);
}

#[test]
fn cascading_clears_count_two_chains() {
    let mut board = SimpleBitBoardPuyoBoard::new();
    // a red row that clears first ...
    for col in 0..4 {
        board.place_puyo(Position::new(col, 0), PuyoColor::Red).unwrap();
    }
    // ... three blues resting on it, and a fourth blue hanging higher in
    // column 3: only after the reds vanish and gravity runs do the four
    // blues meet
    for col in 0..3 {
        board.place_puyo(Position::new(col, 1), PuyoColor::Blue).unwrap();
    }
    board.place_puyo(Position::new(3, 2), PuyoColor::Blue).unwrap();

    let info = board.execute_chains();
    assert!(info.chain_count >= 2);
    assert_eq!(info.chain_count, 2);

    // the board settled: nothing further to clear, and here nothing is left
    assert_eq!(board.execute_chains().chain_count, 0);
    for col in 0..6 {
        assert_eq!(board.get_column_raw(col), 0);
    }
}

#[test]
fn chain_threshold_is_a_parameter() {
    let mut board = SimpleBitBoardPuyoBoard::new();
    board.place_puyo(Position::new(0, 0), PuyoColor::Green).unwrap();
    board.place_puyo(Position::new(1, 0), PuyoColor::Green).unwrap();
    assert!(board.has_n_chain(2));
    assert!(!board.has_n_chain(3));
    assert_eq!(board.collect_removable_groups(2).len(), 4);
    assert!(board.collect_removable_groups(3).is_empty());
}

#[test]
fn vertical_stack_of_four_clears() {
    let mut board = SimpleBitBoardPuyoBoard::new();
    for row in 0..4 {
        board.place_puyo(Position::new(2, row), PuyoColor::Yellow).unwrap();
    }
    let info = board.execute_chains();
    assert_eq!(info.chain_count, 1);
    assert_eq!(board.get_column_height(2), 0);
}

#[test]
fn adjacent_garbage_survives_a_clear() {
    let mut board = SimpleBitBoardPuyoBoard::new();
    for col in 0..4 {
        board.place_puyo(Position::new(col, 0), PuyoColor::Red).unwrap();
    }
    board.place_puyo(Position::new(0, 1), PuyoColor::Garbage).unwrap();
    let info = board.execute_chains();
    assert_eq!(info.chain_count, 1);
    // the garbage is not cleared; gravity drops it onto the floor
    assert_eq!(board.get_puyo(Position::new(0, 0)), Some(PuyoColor::Garbage));
    assert_eq!(board.get_column_height(0), 1);
}
