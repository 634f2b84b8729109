use board_picking::board::{Board, Game, Piece, BOARD_SIZE_I, BOARD_SIZE_J, BOARD_SLOTS, NUM_PIECES};

fn handles() -> Vec<u64> {
    (0..NUM_PIECES as u64).map(|i| 1000 + i * 7).collect()
}

fn placed_game() -> Game {
    let mut game = Game::new();
    game.setup(&handles());
    game
}

#[test]
fn new_board_is_empty_with_all_slots() {
    let board = Board::new();
    assert_eq!(board.tiles.len(), BOARD_SIZE_I * BOARD_SIZE_J);
    assert_eq!(board.tiles.len(), BOARD_SLOTS);
    assert!(board.tiles.iter().all(|t| t.is_none()));
}

#[test]
fn setup_fills_first_row_only() {
    let game = placed_game();
    let h = handles();
    assert_eq!(game.board.tiles.len(), 30);
    for i in 0..NUM_PIECES {
        assert_eq!(game.board.tiles[i], Some(Piece { entity: h[i] }));
    }
    for i in NUM_PIECES..30 {
        assert_eq!(game.board.tiles[i], None);
    }
}

#[test]
fn every_placed_handle_is_found() {
    let game = placed_game();
    for (i, h) in handles().into_iter().enumerate() {
        assert_eq!(game.board.find_by_object(h), Some(i));
    }
}

#[test]
fn unplaced_handle_is_not_found() {
    let game = placed_game();
    assert_eq!(game.board.find_by_object(1), None);
    assert_eq!(game.board.find_by_object(u64::MAX), None);
    assert_eq!(Board::new().find_by_object(1000), None);
}

#[test]
fn click_on_slot_zero_piece_matches_once() {
    let game = placed_game();
    let h = handles();
    assert_eq!(game.board.click_matches(h[0]), vec![0]);
}

#[test]
fn click_on_unrelated_handle_matches_nothing() {
    let game = placed_game();
    assert_eq!(game.board.click_matches(42), Vec::<usize>::new());
}

#[test]
fn click_on_slot_five_matches_in_either_scan_direction() {
    let game = placed_game();
    let h5 = handles()[5];
    assert_eq!(game.board.click_matches(h5), vec![5]);
    let forward = game.board.tiles.iter().any(|t| *t == Some(Piece { entity: h5 }));
    let backward = game.board.tiles.iter().rev().any(|t| *t == Some(Piece { entity: h5 }));
    assert!(forward && backward);
    assert_eq!(game.board.find_by_object(h5), Some(5));
}

#[test]
fn place_stores_in_any_slot() {
    let mut board = Board::new();
    board.place(29, Piece { entity: 3 });
    assert_eq!(board.tiles[29], Some(Piece { entity: 3 }));
    assert_eq!(board.find_by_object(3), Some(29));
}

#[test]
fn equal_handles_find_first_and_click_reports_all() {
    let mut board = Board::new();
    board.place(4, Piece { entity: 9 });
    board.place(12, Piece { entity: 9 });
    assert_eq!(board.find_by_object(9), Some(4));
    assert_eq!(board.click_matches(9), vec![4, 12]);
}
