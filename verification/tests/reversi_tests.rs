use reversi::board::Board;
use reversi::board::Cell;
use reversi::board::Color;
use reversi::board::flip_stones;
use reversi::board::set_stone;
use reversi::game::Direction;
use reversi::game::GameState;
use reversi::game::InputEvent;
use reversi::game::move_cursor;

/// Check every cell of `board` against `expected`, one string per
/// row: `.` empty, `B` black, `W` white.
fn assert_grid(board: &Board, expected: [&str; 8]) {
    for r in 0..8 {
        let row: Vec<char> = expected[r].chars().collect();
        assert_eq!(row.len(), 8, "expected row {} must have 8 cells", r);
        for c in 0..8 {
            let want = match row[c] {
                '.' => Cell::Empty,
                'B' => Cell::Black,
                'W' => Cell::White,
                other => panic!("bad expectation character {:?}", other),
            };
            assert_eq!(board.get(r, c), want, "cell ({}, {})", r, c);
        }
    }
}

/// A board with no stones at all.
fn empty_board() -> Board {
    let mut board = Board::new();
    board.set(3, 3, Cell::Empty);
    board.set(3, 4, Cell::Empty);
    board.set(4, 3, Cell::Empty);
    board.set(4, 4, Cell::Empty);
    board
}

const OPENING: [&str; 8] = [
    "........",
    "........",
    "........",
    "...WB...",
    "...BW...",
    "........",
    "........",
    "........",
];

#[test]
fn opening_position() {
    let board = Board::new();
    assert_grid(&board, OPENING);
}

#[test]
fn set_and_get_roundtrip() {
    let mut board = empty_board();
    board.set(0, 0, Cell::Black);
    board.set(7, 7, Cell::White);
    assert_eq!(board.get(0, 0), Cell::Black);
    assert_eq!(board.get(7, 7), Cell::White);
    assert_eq!(board.get(0, 1), Cell::Empty);
    assert_eq!(board.get(1, 0), Cell::Empty);
}

#[test]
fn rejected_placement_changes_nothing() {
    // (3,3) starts White: placing there is rejected, the grid stays
    // byte-for-byte identical and the turn does not flip.
    let mut board = Board::new();
    let mut turn_black = true;
    set_stone((3, 3), &mut board, &mut turn_black);
    assert_grid(&board, OPENING);
    assert!(turn_black);
}

#[test]
fn opening_move_flips_one_stone() {
    // Black at (2,3): the southward run W(3,3) is bounded by B(4,3),
    // so exactly (3,3) flips; no other direction captures.
    let mut board = Board::new();
    let mut turn_black = true;
    set_stone((2, 3), &mut board, &mut turn_black);
    assert_grid(&board, [
        "........",
        "........",
        "...B....",
        "...BB...",
        "...BW...",
        "........",
        "........",
        "........",
    ]);
    assert!(!turn_black);
}

#[test]
fn capturing_nothing_still_places_and_flips_turn() {
    // (0,0) touches no opponent run: the stone is still placed (no
    // legality check) and the turn still passes.
    let mut board = Board::new();
    let mut turn_black = true;
    set_stone((0, 0), &mut board, &mut turn_black);
    assert_grid(&board, [
        "B.......",
        "........",
        "........",
        "...WB...",
        "...BW...",
        "........",
        "........",
        "........",
    ]);
    assert!(!turn_black);
}

#[test]
fn run_reaching_boundary_does_not_flip() {
    // White run up to the top edge with no bounding black stone:
    // nothing flips in that direction, not even partway.
    let mut board = empty_board();
    board.set(0, 3, Cell::White);
    board.set(1, 3, Cell::White);
    board.set(2, 3, Cell::Black);
    flip_stones(&mut board, (2, 3), Color::Black);
    assert_grid(&board, [
        "...W....",
        "...W....",
        "...B....",
        "........",
        "........",
        "........",
        "........",
        "........",
    ]);
}

#[test]
fn run_reaching_empty_cell_does_not_flip() {
    // White run that ends at an empty cell before any black stone:
    // nothing flips in that direction.
    let mut board = empty_board();
    board.set(4, 4, Cell::White);
    board.set(4, 5, Cell::White);
    board.set(4, 3, Cell::Black);
    flip_stones(&mut board, (4, 3), Color::Black);
    assert_grid(&board, [
        "........",
        "........",
        "........",
        "........",
        "...BWW..",
        "........",
        "........",
        "........",
    ]);
}

#[test]
fn bounded_run_flips_whole_run() {
    let mut board = empty_board();
    board.set(4, 4, Cell::White);
    board.set(4, 5, Cell::White);
    board.set(4, 6, Cell::Black);
    board.set(4, 3, Cell::Black);
    flip_stones(&mut board, (4, 3), Color::Black);
    assert_grid(&board, [
        "........",
        "........",
        "........",
        "........",
        "...BBBB.",
        "........",
        "........",
        "........",
    ]);
}

#[test]
fn run_bounded_at_row_zero_flips() {
    // The scan must treat all four edges alike: a run bounded by a
    // stone sitting on row 0 is still captured.
    let mut board = empty_board();
    board.set(0, 3, Cell::Black);
    board.set(1, 3, Cell::White);
    board.set(2, 3, Cell::Black);
    flip_stones(&mut board, (2, 3), Color::Black);
    assert_grid(&board, [
        "...B....",
        "...B....",
        "...B....",
        "........",
        "........",
        "........",
        "........",
        "........",
    ]);
}

#[test]
fn placement_captures_in_four_directions() {
    let mut board = empty_board();
    board.set(2, 4, Cell::Black);
    board.set(3, 4, Cell::White);
    board.set(6, 4, Cell::Black);
    board.set(5, 4, Cell::White);
    board.set(4, 2, Cell::Black);
    board.set(4, 3, Cell::White);
    board.set(4, 6, Cell::Black);
    board.set(4, 5, Cell::White);
    let mut turn_black = true;
    set_stone((4, 4), &mut board, &mut turn_black);
    assert_grid(&board, [
        "........",
        "........",
        "....B...",
        "....B...",
        "..BBBBB.",
        "....B...",
        "....B...",
        "........",
    ]);
    assert!(!turn_black);
}

#[test]
fn diagonal_capture() {
    // White places at (6,6): the north-west run of two Black stones
    // is bounded by White at (3,3), so both flip.
    let mut board = empty_board();
    board.set(3, 3, Cell::White);
    board.set(4, 4, Cell::Black);
    board.set(5, 5, Cell::Black);
    let mut turn_black = false;
    set_stone((6, 6), &mut board, &mut turn_black);
    assert_grid(&board, [
        "........",
        "........",
        "........",
        "...W....",
        "....W...",
        ".....W..",
        "......W.",
        "........",
    ]);
    assert!(turn_black);
}

#[test]
fn move_cursor_each_direction() {
    assert_eq!(move_cursor((4, 4), Direction::Up), (3, 4));
    assert_eq!(move_cursor((4, 4), Direction::Down), (5, 4));
    assert_eq!(move_cursor((4, 4), Direction::Left), (4, 3));
    assert_eq!(move_cursor((4, 4), Direction::Right), (4, 5));
}

#[test]
fn move_cursor_clamps_at_edges() {
    assert_eq!(move_cursor((0, 4), Direction::Up), (0, 4));
    assert_eq!(move_cursor((7, 4), Direction::Down), (7, 4));
    assert_eq!(move_cursor((4, 0), Direction::Left), (4, 0));
    assert_eq!(move_cursor((4, 7), Direction::Right), (4, 7));
}

#[test]
fn cursor_stays_in_bounds_under_any_moves() {
    let dirs = [Direction::Up, Direction::Down, Direction::Left, Direction::Right];
    for start_r in 0..8 {
        for start_c in 0..8 {
            let mut cursor = (start_r, start_c);
            // a fixed pseudo-arbitrary walk of 32 steps
            for step in 0..32 {
                cursor = move_cursor(cursor, dirs[(step * 7 + start_r + 3 * start_c) % 4]);
                assert!(cursor.0 < 8 && cursor.1 < 8);
            }
        }
    }
}

#[test]
fn turn_alternates_only_on_accepted_placements() {
    let mut board = Board::new();
    let mut turn_black = true;
    set_stone((2, 3), &mut board, &mut turn_black); // accepted
    assert!(!turn_black);
    set_stone((2, 3), &mut board, &mut turn_black); // now occupied: rejected
    assert!(!turn_black);
    set_stone((2, 2), &mut board, &mut turn_black); // accepted (White)
    assert!(turn_black);
}

#[test]
fn scenario_opening_move_via_events() {
    // From (4,4): Up -> (3,4), Up -> (2,4), Left -> (2,3); confirm
    // places Black there and flips exactly (3,3).
    let mut game = GameState::new();
    assert!(!game.handle_event(InputEvent::Move(Direction::Up)));
    assert_eq!(game.cursor, (3, 4));
    assert!(!game.handle_event(InputEvent::Move(Direction::Up)));
    assert_eq!(game.cursor, (2, 4));
    assert!(!game.handle_event(InputEvent::Move(Direction::Left)));
    assert_eq!(game.cursor, (2, 3));
    assert!(!game.handle_event(InputEvent::Confirm));
    assert_grid(&game.board, [
        "........",
        "........",
        "...B....",
        "...BB...",
        "...BW...",
        "........",
        "........",
        "........",
    ]);
    assert!(!game.turn_black);
}

#[test]
fn scenario_confirm_on_occupied_cell_changes_nothing() {
    let mut game = GameState::new();
    // move the cursor from (4,4) to the White stone at (3,3)
    assert!(!game.handle_event(InputEvent::Move(Direction::Up)));
    assert!(!game.handle_event(InputEvent::Move(Direction::Left)));
    assert_eq!(game.cursor, (3, 3));
    assert!(!game.handle_event(InputEvent::Confirm));
    assert_grid(&game.board, OPENING);
    assert!(game.turn_black);
}

#[test]
fn scenario_ten_moves_then_quit() {
    // Ten quit-less movement events followed by Quit: the loop is
    // asked to stop only at the Quit, and the board never changes.
    let mut game = GameState::new();
    let events = [
        InputEvent::Move(Direction::Up),
        InputEvent::Move(Direction::Left),
        InputEvent::Move(Direction::Down),
        InputEvent::Move(Direction::Right),
        InputEvent::Move(Direction::Up),
        InputEvent::Move(Direction::Up),
        InputEvent::Move(Direction::Up),
        InputEvent::Move(Direction::Up),
        InputEvent::Move(Direction::Up),
        InputEvent::Move(Direction::Left),
    ];
    for event in events {
        assert!(!game.handle_event(event));
        assert!(game.cursor.0 < 8 && game.cursor.1 < 8);
    }
    assert!(game.handle_event(InputEvent::Quit));
    assert_grid(&game.board, OPENING);
    assert!(game.turn_black);
}

#[test]
fn ignored_events_change_nothing() {
    let mut game = GameState::new();
    assert!(!game.handle_event(InputEvent::Ignored));
    assert_eq!(game.cursor, (4, 4));
    assert!(game.turn_black);
    assert_grid(&game.board, OPENING);
}
