use reversi::board::Board;
use reversi::board::Cell;
use reversi::game::GameState;
use reversi::render::Glyphs;
use reversi::render::generate_board_string;

const ASCII: Glyphs = Glyphs { black: 'B', white: 'W' };

#[test]
fn opening_board_text() {
    let board = Board::new();
    let text = generate_board_string(&board, (4, 4), ASCII);
    let expected = ". . . . . . . . \r\n\
                    . . . . . . . . \r\n\
                    . . . . . . . . \r\n\
                    . . . W B . . . \r\n\
                    . . . B \x1b[31mW\x1b[0m . . . \r\n\
                    . . . . . . . . \r\n\
                    . . . . . . . . \r\n\
                    . . . . . . . . \r\n";
    assert_eq!(text, expected);
}

#[test]
fn cursor_highlight_follows_cursor() {
    let board = Board::new();
    let text = generate_board_string(&board, (0, 0), ASCII);
    assert!(text.starts_with("\x1b[31m.\x1b[0m . "));
    // exactly one cell is highlighted
    assert_eq!(text.matches("\x1b[31m").count(), 1);
    assert_eq!(text.matches("\x1b[0m").count(), 1);
}

#[test]
fn glyphs_configure_the_stones() {
    let mut board = Board::new();
    board.set(0, 0, Cell::Black);
    let glyphs = Glyphs { black: '●', white: '◌' };
    let text = generate_board_string(&board, (7, 7), glyphs);
    let first_row: &str = text.split("\r\n").next().unwrap();
    assert_eq!(first_row, "● . . . . . . . ");
    let row3: &str = text.split("\r\n").nth(3).unwrap();
    assert_eq!(row3, ". . . ◌ ● . . . ");
}

#[test]
fn render_reflects_game_state() {
    let game = GameState::new();
    let text = generate_board_string(&game.board, game.cursor, ASCII);
    // eight rows, each of eight space-separated cells
    let rows: Vec<&str> = text.split("\r\n").filter(|r| !r.is_empty()).collect();
    assert_eq!(rows.len(), 8);
}
