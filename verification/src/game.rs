//! The interaction loop's state: cursor position, turn flag and the
//! board, advanced one input event at a time.
//!
//! Every event is a valid transition or a no-op; nothing here can
//! fail.  The cursor clamps at the board edges rather than wrapping,
//! the turn flag flips exactly on accepted placements, and only a
//! quit event asks the caller to stop the loop.

use vstd::prelude::*;

use crate::board::Board;
use crate::board::Cell;
use crate::board::cell_at;
use crate::board::in_bounds;
use crate::board::opening_cell;
use crate::board::place_result;
use crate::board::set_stone;
use crate::board::turn_color;

verus! {

/// A cursor movement direction.
#[derive(Clone, Copy, Debug, PartialEq, Eq, Structural)]
pub enum Direction {
    Up,
    Down,
    Left,
    Right,
}

/// One abstract input event, as the terminal layer hands it in.  Keys
/// that map to none of the recognized actions arrive as `Ignored`.
#[derive(Clone, Copy, Debug, PartialEq, Eq, Structural)]
pub enum InputEvent {
    Move(Direction),
    Confirm,
    Quit,
    Ignored,
}

/// `x` lowered one step, clamping at 0.
pub open spec fn clamp_dec(x: int) -> int {
    if x > 0 {
        x - 1
    } else {
        0
    }
}

/// `x` raised one step, clamping at 7.
pub open spec fn clamp_inc(x: int) -> int {
    if x < 7 {
        x + 1
    } else {
        x
    }
}

/// The cursor after one movement: one step in the given direction,
/// clamped to the grid.
pub open spec fn moved_cursor(row: int, col: int, direction: Direction) -> (int, int) {
    match direction {
        Direction::Up => (clamp_dec(row), col),
        Direction::Down => (clamp_inc(row), col),
        Direction::Left => (row, clamp_dec(col)),
        Direction::Right => (row, clamp_inc(col)),
    }
}

/// Move the cursor one step, clamping at the board edges so that an
/// in-bounds cursor stays in bounds.
pub fn move_cursor(cursor: (usize, usize), direction: Direction) -> (moved: (usize, usize))
    ensures
        (moved.0 as int, moved.1 as int) == moved_cursor(
            cursor.0 as int,
            cursor.1 as int,
            direction,
        ),
        cursor.0 < 8 && cursor.1 < 8 ==> moved.0 < 8 && moved.1 < 8,
{
    let (row, col) = cursor;
    match direction {
        Direction::Up => (if row > 0 { row - 1 } else { 0 }, col),
        Direction::Down => (if row < 7 { row + 1 } else { row }, col),
        Direction::Left => (row, if col > 0 { col - 1 } else { 0 }),
        Direction::Right => (row, if col < 7 { col + 1 } else { col }),
    }
}

/// The cursor after a whole sequence of movements.
pub open spec fn moved_cursor_seq(row: int, col: int, directions: Seq<Direction>) -> (int, int)
    decreases directions.len(),
{
    if directions.len() == 0 {
        (row, col)
    } else {
        let p = moved_cursor(row, col, directions[0]);
        moved_cursor_seq(p.0, p.1, directions.drop_first())
    }
}

/// Law: after any sequence of movements from an in-bounds position,
/// the cursor is still within [0,7]×[0,7] — movement clamps at the
/// edges and never wraps.
pub proof fn lemma_cursor_always_in_bounds(row: int, col: int, directions: Seq<Direction>)
    requires
        0 <= row < 8,
        0 <= col < 8,
    ensures
        in_bounds(
            moved_cursor_seq(row, col, directions).0,
            moved_cursor_seq(row, col, directions).1,
        ),
    decreases directions.len(),
{
    if directions.len() > 0 {
        let p = moved_cursor(row, col, directions[0]);
        lemma_cursor_always_in_bounds(p.0, p.1, directions.drop_first());
    }
}

/// The whole game: board, cursor, and whose move is next.
pub struct GameState {
    pub board: Board,
    pub cursor: (usize, usize),
    pub turn_black: bool,
}

impl GameState {
    /// The game's invariant: a well-formed board and an in-bounds
    /// cursor.
    pub open spec fn wf(&self) -> bool {
        &&& self.board.wf()
        &&& self.cursor.0 < 8
        &&& self.cursor.1 < 8
    }

    /// A fresh game: the standard opening board, cursor at (4,4),
    /// Black to move.
    pub fn new() -> (g: GameState)
        ensures
            g.wf(),
            forall|r: int, c: int|
                in_bounds(r, c) ==> #[trigger] cell_at(g.board@, r, c) == opening_cell(r, c),
            g.cursor == (4usize, 4usize),
            g.turn_black,
    {
        GameState { board: Board::new(), cursor: (4, 4), turn_black: true }
    }

    /// Advance the game by one input event: movement events shift the
    /// cursor, a confirm event places a stone for the player on turn
    /// (flipping the turn exactly when the placement is accepted), a
    /// quit event asks the caller to stop, and anything else changes
    /// nothing.
    pub fn handle_event(&mut self, event: InputEvent) -> (quit: bool)
        requires
            old(self).wf(),
        ensures
            final(self).wf(),
            quit == (event == InputEvent::Quit),
            match event {
                InputEvent::Move(d) => {
                    &&& final(self).board@ == old(self).board@
                    &&& final(self).turn_black == old(self).turn_black
                    &&& (final(self).cursor.0 as int, final(self).cursor.1 as int) == moved_cursor(
                        old(self).cursor.0 as int,
                        old(self).cursor.1 as int,
                        d,
                    )
                },
                InputEvent::Confirm => {
                    let b0 = old(self).board@;
                    let row = old(self).cursor.0 as int;
                    let col = old(self).cursor.1 as int;
                    &&& final(self).cursor == old(self).cursor
                    &&& (cell_at(b0, row, col) != Cell::Empty ==> final(self).board@ == b0 && final(self).turn_black
                        == old(self).turn_black)
                    &&& (cell_at(b0, row, col) == Cell::Empty ==> final(self).turn_black == !old(self).turn_black
                        && final(self).board@ == place_result(
                        b0,
                        row,
                        col,
                        turn_color(old(self).turn_black),
                    ))
                },
                InputEvent::Quit | InputEvent::Ignored => {
                    &&& final(self).board@ == old(self).board@
                    &&& final(self).cursor == old(self).cursor
                    &&& final(self).turn_black == old(self).turn_black
                },
            },
    {
        match event {
            InputEvent::Move(d) => {
                self.cursor = move_cursor(self.cursor, d);
                false
            },
            InputEvent::Confirm => {
                let mut turn_black = self.turn_black;
                set_stone(self.cursor, &mut self.board, &mut turn_black);
                self.turn_black = turn_black;
                false
            },
            InputEvent::Quit => true,
            InputEvent::Ignored => false,
        }
    }
}

} // verus!
