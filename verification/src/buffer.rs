//! The text buffer: ordered lines of characters, the logical cursor, the
//! scroll offset, and the edit operations, including evaluation of the
//! current line on a line terminator.
use vstd::prelude::*;

use crate::chars::{is_control, is_control_char};
use crate::eval::{eval_line, evaluate, outcome_chars, outcome_to_chars};

verus! {

/// A logical position in the buffer: the line index and the column within
/// that line.  The column may equal the line length, denoting the position
/// after the last character.
#[derive(Clone, Copy, PartialEq, Eq, Structural, Debug)]
pub struct Cursor {
    pub row: usize,
    pub column: usize,
}

/// The calculator's state: the lines of text, the cursor, and the index of
/// the first line considered for rendering.
pub struct Dentaku {
    pub buffer: Vec<Vec<char>>,
    pub cursor: Cursor,
    pub row_offset: usize,
}

impl Dentaku {
    /// The lines as mathematical sequences of characters.
    pub open spec fn lines(&self) -> Seq<Seq<char>> {
        Seq::new(self.buffer@.len() as nat, |i: int| self.buffer@[i]@)
    }

    /// The line the cursor is on.
    pub open spec fn current_line(&self) -> Seq<char> {
        self.lines()[self.cursor.row as int]
    }

    /// Well-formedness: at least one line always exists, the cursor is on a
    /// line, and its column is at most that line's length.
    pub open spec fn wf(&self) -> bool {
        &&& self.lines().len() >= 1
        &&& (self.cursor.row as int) < self.lines().len()
        &&& self.cursor.column as int <= self.current_line().len()
    }

    /// Handles one typed character.
    ///
    /// A line terminator evaluates the current line and inserts two new
    /// lines directly below it: the outcome's text, then an empty line; the
    /// cursor moves to column 0 of that empty line.  Any other non-control
    /// character is inserted at the cursor's column and the cursor advances
    /// one column.  Remaining control characters do nothing.
    pub fn insert(&mut self, c: char)
        requires
            old(self).wf(),
            old(self).lines().len() + 2 <= usize::MAX,
        ensures
            final(self).wf(),
            final(self).row_offset == old(self).row_offset,
            c == '\n' ==> {
                &&& final(self).lines() == old(self).lines().insert(
                    old(self).cursor.row + 1,
                    outcome_chars(eval_line(old(self).current_line())),
                ).insert(old(self).cursor.row + 2, Seq::<char>::empty())
                &&& final(self).cursor.row == old(self).cursor.row + 2
                &&& final(self).cursor.column == 0
            },
            c != '\n' && !is_control_char(c) ==> {
                &&& final(self).lines() == old(self).lines().update(
                    old(self).cursor.row as int,
                    old(self).current_line().insert(old(self).cursor.column as int, c),
                )
                &&& final(self).cursor.row == old(self).cursor.row
                &&& final(self).cursor.column == old(self).cursor.column + 1
            },
            c != '\n' && is_control_char(c) ==> *final(self) == *old(self),
    {
        if c == '\n' {
            let row = self.cursor.row;
            let outcome = evaluate(&self.buffer[row]);
            let text = outcome_to_chars(outcome);
            self.buffer.insert(row + 1, text);
            let empty_line: Vec<char> = Vec::new();
            self.buffer.insert(row + 2, empty_line);
            self.cursor.column = 0;
            self.cursor.row = row + 2;
            proof {
                assert(final(self).lines() =~= old(self).lines().insert(
                    old(self).cursor.row + 1,
                    outcome_chars(eval_line(old(self).current_line())),
                ).insert(old(self).cursor.row + 2, Seq::<char>::empty()));
            }
        } else if !is_control(c) {
            let row = self.cursor.row;
            let column = self.cursor.column;
            self.buffer[row].insert(column, c);
            self.cursor_right();
            proof {
                assert(final(self).lines() =~= old(self).lines().update(
                    old(self).cursor.row as int,
                    old(self).current_line().insert(old(self).cursor.column as int, c),
                ));
            }
        }
    }

    /// Removes the character directly before the cursor and moves the
    /// cursor one column left.  At column 0 nothing happens: lines are
    /// never merged.
    pub fn back_space(&mut self)
        requires
            old(self).wf(),
        ensures
            final(self).wf(),
            old(self).cursor.column == 0 ==> *final(self) == *old(self),
            old(self).cursor.column > 0 ==> {
                &&& final(self).lines() == old(self).lines().update(
                    old(self).cursor.row as int,
                    old(self).current_line().remove(old(self).cursor.column - 1),
                )
                &&& final(self).cursor.row == old(self).cursor.row
                &&& final(self).cursor.column == old(self).cursor.column - 1
                &&& final(self).row_offset == old(self).row_offset
            },
    {
        if self.cursor.column > 0 {
            let row = self.cursor.row;
            let column = self.cursor.column;
            self.buffer[row].remove(column - 1);
            self.cursor.column = column - 1;
            proof {
                assert(final(self).lines() =~= old(self).lines().update(
                    old(self).cursor.row as int,
                    old(self).current_line().remove(old(self).cursor.column - 1),
                ));
            }
        }
    }

    /// Moves the cursor one column left, but never below column 1: column 0
    /// cannot be reached this way, only through `back_space` or a line
    /// terminator.
    pub fn cursor_left(&mut self)
        requires
            old(self).wf(),
        ensures
            final(self).wf(),
            final(self).buffer == old(self).buffer,
            final(self).row_offset == old(self).row_offset,
            final(self).cursor.row == old(self).cursor.row,
            final(self).cursor.column == if old(self).cursor.column > 1 {
                old(self).cursor.column - 1
            } else {
                old(self).cursor.column as int
            },
    {
        if self.cursor.column > 1 {
            self.cursor.column = self.cursor.column - 1;
        }
    }

    /// Moves the cursor one column right, clamped to the current line's
    /// length.
    pub fn cursor_right(&mut self)
        requires
            old(self).wf(),
        ensures
            final(self).wf(),
            final(self).buffer == old(self).buffer,
            final(self).row_offset == old(self).row_offset,
            final(self).cursor.row == old(self).cursor.row,
            final(self).cursor.column == if old(self).cursor.column + 1 <= old(
                self,
            ).current_line().len() {
                old(self).cursor.column + 1
            } else {
                old(self).current_line().len() as int
            },
    {
        let row = self.cursor.row;
        if self.cursor.column < self.buffer[row].len() {
            self.cursor.column = self.cursor.column + 1;
        }
    }

    /// Adjusts the row offset so that the cursor's line is representable in
    /// a window of `rows` lines: the offset comes down to the cursor's line
    /// when that line is above the window, and up to the first line of the
    /// last `rows` lines ending at the cursor's line when it is below.
    pub fn scroll(&mut self, rows: usize)
        requires
            old(self).wf(),
            rows >= 1,
        ensures
            final(self).wf(),
            final(self).buffer == old(self).buffer,
            final(self).cursor == old(self).cursor,
            final(self).row_offset == ({
                let lowered = if old(self).row_offset <= old(self).cursor.row {
                    old(self).row_offset as int
                } else {
                    old(self).cursor.row as int
                };
                if old(self).cursor.row + 1 >= rows && lowered < old(self).cursor.row + 1 - rows {
                    old(self).cursor.row + 1 - rows
                } else {
                    lowered
                }
            }),
            final(self).row_offset <= final(self).cursor.row,
            final(self).cursor.row < final(self).row_offset + rows,
    {
        if self.cursor.row < self.row_offset {
            self.row_offset = self.cursor.row;
        }
        if self.cursor.row >= rows - 1 {
            let floor = self.cursor.row - (rows - 1);
            if floor > self.row_offset {
                self.row_offset = floor;
            }
        }
    }
}

impl Default for Dentaku {
    /// The initial state: one empty line, the cursor at the origin, no
    /// scrolling.
    fn default() -> (d: Dentaku)
        ensures
            d.wf(),
            d.lines() == seq![Seq::<char>::empty()],
            d.cursor.row == 0,
            d.cursor.column == 0,
            d.row_offset == 0,
    {
        let mut buffer: Vec<Vec<char>> = Vec::new();
        let first: Vec<char> = Vec::new();
        buffer.push(first);
        let d = Dentaku { buffer, cursor: Cursor { row: 0, column: 0 }, row_offset: 0 };
        proof {
            assert(d.lines() =~= seq![Seq::<char>::empty()]);
        }
        d
    }
}

} // verus!
