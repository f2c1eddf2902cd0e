//! The renderer: the display text for the board, one row per line.
//!
//! Cells are separated by a space and rows end in a carriage return
//! plus newline, as raw-mode terminal line discipline wants.  An
//! empty cell shows `.`, a stone shows its color's configured glyph,
//! and the symbol under the cursor is wrapped in the red/reset ANSI
//! escapes so that exactly that cell stands out.

use vstd::prelude::*;
use vstd::string::StringExecFns;

use crate::board::Board;
use crate::board::Cell;
use crate::board::cell_at;

verus! {

/// The stone glyphs to draw with, chosen by the front end at startup.
#[derive(Clone, Copy, Debug, PartialEq, Eq, Structural)]
pub struct Glyphs {
    pub black: char,
    pub white: char,
}

/// The character that a cell shows.  The three-variant cell type
/// leaves no room for an unknown state, so no fallback symbol exists.
pub open spec fn symbol_char(cell: Cell, glyphs: Glyphs) -> char {
    match cell {
        Cell::Empty => '.',
        Cell::Black => glyphs.black,
        Cell::White => glyphs.white,
    }
}

/// The ANSI escape that starts the cursor highlight (red foreground).
pub open spec fn highlight_pre() -> Seq<char> {
    seq!['\x1b', '[', '3', '1', 'm']
}

/// The ANSI escape that ends the cursor highlight (reset).
pub open spec fn highlight_post() -> Seq<char> {
    seq!['\x1b', '[', '0', 'm']
}

/// The text for the cell `(i, j)`: its symbol and a trailing space,
/// with the symbol wrapped in the highlight escapes when the cursor
/// `(cr, cc)` sits on the cell.
pub open spec fn cell_text(
    b: Seq<Cell>,
    glyphs: Glyphs,
    cr: int,
    cc: int,
    i: int,
    j: int,
) -> Seq<char> {
    let sym = symbol_char(cell_at(b, i, j), glyphs);
    if i == cr && j == cc {
        highlight_pre() + seq![sym] + highlight_post() + seq![' ']
    } else {
        seq![sym, ' ']
    }
}

/// The text of the first `j` cells of row `i`.
pub open spec fn row_text_upto(
    b: Seq<Cell>,
    glyphs: Glyphs,
    cr: int,
    cc: int,
    i: int,
    j: int,
) -> Seq<char>
    decreases j,
{
    if j <= 0 {
        Seq::empty()
    } else {
        row_text_upto(b, glyphs, cr, cc, i, j - 1) + cell_text(b, glyphs, cr, cc, i, j - 1)
    }
}

/// The text of the first `i` full rows, each closed by `\r\n`.
pub open spec fn board_text_upto(
    b: Seq<Cell>,
    glyphs: Glyphs,
    cr: int,
    cc: int,
    i: int,
) -> Seq<char>
    decreases i,
{
    if i <= 0 {
        Seq::empty()
    } else {
        board_text_upto(b, glyphs, cr, cc, i - 1) + row_text_upto(b, glyphs, cr, cc, i - 1, 8)
            + seq!['\r', '\n']
    }
}

/// The whole display text of a board with the cursor at `(cr, cc)`.
pub open spec fn board_text(b: Seq<Cell>, glyphs: Glyphs, cr: int, cc: int) -> Seq<char> {
    board_text_upto(b, glyphs, cr, cc, 8)
}

/// The character that a cell shows.
pub fn symbol(cell: Cell, glyphs: Glyphs) -> (c: char)
    ensures
        c == symbol_char(cell, glyphs),
{
    match cell {
        Cell::Empty => '.',
        Cell::Black => glyphs.black,
        Cell::White => glyphs.white,
    }
}

/// Relies on String::push: it appends exactly the given character to
/// the end of the string.
#[verifier::external_body]
fn push_char(s: &mut String, c: char)
    ensures
        final(s)@ == old(s)@.push(c),
{
    s.push(c);
}

/// Produce the display text for the board: eight rows of eight cells,
/// space-separated, `\r\n`-terminated, with the cell under the cursor
/// highlighted.
pub fn generate_board_string(board: &Board, cursor: (usize, usize), glyphs: Glyphs) -> (s: String)
    requires
        board.wf(),
    ensures
        s@ == board_text(board@, glyphs, cursor.0 as int, cursor.1 as int),
{
    let ghost b = board@;
    let ghost cr = cursor.0 as int;
    let ghost cc = cursor.1 as int;
    let mut message = String::new();
    let mut i: usize = 0;
    while i < 8
        invariant
            board.wf(),
            board@ == b,
            cr == cursor.0 as int,
            cc == cursor.1 as int,
            i <= 8,
            message@ == board_text_upto(b, glyphs, cr, cc, i as int),
        decreases 8 - i,
    {
        let mut j: usize = 0;
        while j < 8
            invariant
                board.wf(),
                board@ == b,
                cr == cursor.0 as int,
                cc == cursor.1 as int,
                i < 8,
                j <= 8,
                message@ == board_text_upto(b, glyphs, cr, cc, i as int) + row_text_upto(
                    b,
                    glyphs,
                    cr,
                    cc,
                    i as int,
                    j as int,
                ),
            decreases 8 - j,
        {
            let ghost before = message@;
            let sym = symbol(board.get(i, j), glyphs);
            if i == cursor.0 && j == cursor.1 {
                message.append("\x1b[31m");
                push_char(&mut message, sym);
                message.append("\x1b[0m ");
                proof {
                    reveal_strlit("\x1b[31m");
                    reveal_strlit("\x1b[0m ");
                    assert(message@ =~= before + cell_text(b, glyphs, cr, cc, i as int, j as int));
                }
            } else {
                push_char(&mut message, sym);
                message.append(" ");
                proof {
                    reveal_strlit(" ");
                    assert(message@ =~= before + cell_text(b, glyphs, cr, cc, i as int, j as int));
                }
            }
            proof {
                assert(message@ =~= board_text_upto(b, glyphs, cr, cc, i as int) + row_text_upto(
                    b,
                    glyphs,
                    cr,
                    cc,
                    i as int,
                    j as int + 1,
                ));
            }
            j = j + 1;
        }
        message.append("\r\n");
        proof {
            reveal_strlit("\r\n");
            assert(message@ =~= board_text_upto(b, glyphs, cr, cc, i as int + 1));
        }
        i = i + 1;
    }
    message
}

} // verus!
