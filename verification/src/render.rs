//! Soft-wrap rendering: projecting the logical buffer onto a bounded
//! terminal grid, and mapping the logical cursor to a physical coordinate.
//!
//! Each logical line is cut into physical rows of at most `cols` characters;
//! a line whose length is an exact positive multiple of `cols` is followed
//! by an empty physical row, since the position after its last character
//! already lies on the next row.  Rendering starts at the buffer's row
//! offset and stops once `rows` physical rows are filled.
use vstd::prelude::*;

use crate::buffer::{Cursor, Dentaku};

verus! {

/// The physical rows one logical line occupies on a grid `cols` columns
/// wide: full rows of exactly `cols` characters, then the remainder.
pub open spec fn wrap_line(s: Seq<char>, cols: int) -> Seq<Seq<char>>
    recommends
        cols >= 1,
    decreases s.len(),
    when cols >= 1
{
    if s.len() < cols {
        seq![s]
    } else {
        seq![s.take(cols)] + wrap_line(s.skip(cols), cols)
    }
}

/// How many physical rows one logical line occupies.
pub open spec fn wrap_height(s: Seq<char>, cols: int) -> int {
    s.len() as int / cols + 1
}

/// The physical rows of the logical lines `off..end`, in order.
pub open spec fn rows_range(lines: Seq<Seq<char>>, off: int, end: int, cols: int) -> Seq<Seq<char>>
    decreases end - off,
{
    if off >= end || off < 0 || end > lines.len() {
        Seq::empty()
    } else {
        wrap_line(lines[off], cols) + rows_range(lines, off + 1, end, cols)
    }
}

/// The total physical height of the logical lines `off..end`.
pub open spec fn heights(lines: Seq<Seq<char>>, off: int, end: int, cols: int) -> int
    decreases end - off,
{
    if off >= end || off < 0 || end > lines.len() {
        0
    } else {
        wrap_height(lines[off], cols) + heights(lines, off + 1, end, cols)
    }
}

/// At most the first `rows` physical rows: the rest is below the screen.
pub open spec fn clip(rs: Seq<Seq<char>>, rows: int) -> Seq<Seq<char>> {
    if rs.len() <= rows {
        rs
    } else {
        rs.take(rows)
    }
}

/// The views of a sequence of character vectors.
pub open spec fn row_views(rs: Seq<Vec<char>>) -> Seq<Seq<char>> {
    Seq::new(rs.len(), |i: int| rs[i]@)
}

/// One rendered frame: the physical rows of text, and the physical
/// coordinate of the logical cursor if it lies within the frame.
pub struct Frame {
    pub rows: Vec<Vec<char>>,
    pub cursor: Option<Cursor>,
}

/// Splitting one logical line into physical rows loses no characters and
/// keeps them in order: concatenating the rows restores the line.  A line
/// at least as wide as the grid takes at least two physical rows.
pub proof fn lemma_wrap_line_no_loss(s: Seq<char>, cols: int)
    requires
        cols >= 1,
    ensures
        wrap_line(s, cols).flatten() == s,
        wrap_line(s, cols).len() == wrap_height(s, cols),
        s.len() >= cols ==> wrap_line(s, cols).len() >= 2,
    decreases s.len(),
{
    if s.len() < cols {
        let w = wrap_line(s, cols);
        assert(w == seq![s]);
        assert(w.first() == s);
        assert(w.drop_first() =~= Seq::<Seq<char>>::empty());
        assert(Seq::<Seq<char>>::empty().flatten() =~= Seq::<char>::empty());
        assert(w.flatten() == w.first() + w.drop_first().flatten());
        assert(w.flatten() =~= s);
        assert(s.len() as int / cols == 0) by {
            vstd::arithmetic::div_mod::lemma_basic_div(s.len() as int, cols);
        }
    } else {
        let rest = s.skip(cols);
        lemma_wrap_line_no_loss(rest, cols);
        let w = wrap_line(s, cols);
        assert(w == seq![s.take(cols)] + wrap_line(rest, cols));
        assert(w.len() == 1 + wrap_line(rest, cols).len());
        assert(w.first() == s.take(cols));
        assert(w.drop_first() =~= wrap_line(rest, cols));
        assert(w.flatten() == w.first() + w.drop_first().flatten());
        assert(w.flatten() == s.take(cols) + wrap_line(rest, cols).flatten());
        assert(s.take(cols) + rest =~= s);
        assert(rest.len() as int / cols + 1 == s.len() as int / cols) by {
            vstd::arithmetic::div_mod::lemma_div_plus_one(s.len() - cols, cols);
        }
    }
}

/// The rendered height of a range of lines is the sum of their heights.
pub proof fn lemma_rows_range_len(lines: Seq<Seq<char>>, off: int, end: int, cols: int)
    requires
        cols >= 1,
    ensures
        rows_range(lines, off, end, cols).len() == heights(lines, off, end, cols),
    decreases end - off,
{
    if !(off >= end || off < 0 || end > lines.len()) {
        lemma_wrap_line_no_loss(lines[off], cols);
        lemma_rows_range_len(lines, off + 1, end, cols);
    }
}

/// Extending a range of lines by one appends that line's physical rows.
proof fn lemma_rows_range_snoc(lines: Seq<Seq<char>>, off: int, end: int, cols: int)
    requires
        0 <= off <= end < lines.len(),
    ensures
        rows_range(lines, off, end + 1, cols) == rows_range(lines, off, end, cols) + wrap_line(
            lines[end],
            cols,
        ),
    decreases end - off,
{
    if off >= end {
        assert(rows_range(lines, off, end, cols) == Seq::<Seq<char>>::empty());
        assert(rows_range(lines, end + 1, end + 1, cols) == Seq::<Seq<char>>::empty());
        assert(rows_range(lines, end, end + 1, cols) == wrap_line(lines[end], cols) + rows_range(
            lines,
            end + 1,
            end + 1,
            cols,
        ));
        assert(rows_range(lines, end, end + 1, cols) =~= wrap_line(lines[end], cols));
        assert(rows_range(lines, off, end + 1, cols) =~= rows_range(lines, off, end, cols)
            + wrap_line(lines[end], cols));
    } else {
        lemma_rows_range_snoc(lines, off + 1, end, cols);
        assert(rows_range(lines, off, end + 1, cols) =~= rows_range(lines, off, end, cols)
            + wrap_line(lines[end], cols));
    }
}

/// A later cut of the same range is at least as high.
proof fn lemma_heights_mono(lines: Seq<Seq<char>>, off: int, mid: int, end: int, cols: int)
    requires
        cols >= 1,
        0 <= off <= mid <= end <= lines.len(),
    ensures
        heights(lines, off, end, cols) >= heights(lines, off, mid, cols),
    decreases mid - off,
{
    if off < mid {
        lemma_heights_mono(lines, off + 1, mid, end, cols);
    } else {
        lemma_heights_nonneg(lines, off, end, cols);
    }
}

/// Heights are never negative.
proof fn lemma_heights_nonneg(lines: Seq<Seq<char>>, off: int, end: int, cols: int)
    requires
        cols >= 1,
    ensures
        heights(lines, off, end, cols) >= 0,
    decreases end - off,
{
    if !(off >= end || off < 0 || end > lines.len()) {
        assert(lines[off].len() as int / cols >= 0);
        lemma_heights_nonneg(lines, off + 1, end, cols);
    }
}

impl Dentaku {
    /// The physical row of the cursor, counted from the top of the window:
    /// the height of the lines between the row offset and the cursor's
    /// line, plus the rows the cursor's own column wraps over.
    pub open spec fn cursor_phys_row(&self, cols: int) -> int {
        heights(self.lines(), self.row_offset as int, self.cursor.row as int, cols)
            + self.cursor.column as int / cols
    }

    /// Where the cursor lands on a `rows` by `cols` grid, if it is on
    /// screen: its line must not be above the row offset and its physical
    /// row must lie within the window.
    pub open spec fn cursor_phys(&self, rows: int, cols: int) -> Option<Cursor> {
        if self.cursor.row < self.row_offset {
            None
        } else {
            let pr = self.cursor_phys_row(cols);
            if pr < rows {
                Some(
                    Cursor {
                        row: pr as usize,
                        column: (self.cursor.column as int % cols) as usize,
                    },
                )
            } else {
                None
            }
        }
    }

    /// Renders the buffer onto a `rows` by `cols` grid: the physical rows
    /// of the logical lines from the row offset on, clipped to the window,
    /// together with the cursor's physical coordinate if it is on screen.
    pub fn render(&self, rows: usize, cols: usize) -> (r: Frame)
        requires
            self.wf(),
            rows >= 1,
            cols >= 1,
        ensures
            row_views(r.rows@) == clip(
                rows_range(self.lines(), self.row_offset as int, self.lines().len() as int, cols as int),
                rows as int,
            ),
            r.cursor == self.cursor_phys(rows as int, cols as int),
    {
        let ghost lines = self.lines();
        let ghost goal = rows_range(lines, self.row_offset as int, lines.len() as int, cols as int);
        let mut out: Vec<Vec<char>> = Vec::new();
        let mut i: usize = self.row_offset;
        proof {
            assert(row_views(out@) =~= clip(
                rows_range(lines, self.row_offset as int, i as int, cols as int),
                rows as int,
            ));
        }
        while i < self.buffer.len() && out.len() < rows
            invariant
                self.wf(),
                rows >= 1,
                cols >= 1,
                lines == self.lines(),
                self.row_offset <= i,
                i as int <= lines.len() || i == self.row_offset,
                out@.len() <= rows,
                row_views(out@) == clip(
                    rows_range(lines, self.row_offset as int, i as int, cols as int),
                    rows as int,
                ),
            decreases self.buffer@.len() - i,
        {
            let ghost base = rows_range(lines, self.row_offset as int, i as int, cols as int);
            let ghost s = lines[i as int];
            let ghost mut done: Seq<Seq<char>> = Seq::empty();
            let mut j: usize = 0;
            proof {
                assert(s.skip(0) =~= s);
                assert(done + wrap_line(s, cols as int) =~= wrap_line(s, cols as int));
                assert(base + done =~= base);
            }
            while out.len() < rows && self.buffer[i].len() - j >= cols
                invariant
                    self.wf(),
                    rows >= 1,
                    cols >= 1,
                    lines == self.lines(),
                    self.row_offset <= i < lines.len(),
                    s == lines[i as int],
                    j <= s.len(),
                    out@.len() <= rows,
                    done + wrap_line(s.skip(j as int), cols as int) == wrap_line(s, cols as int),
                    row_views(out@) == clip(base + done, rows as int),
                decreases s.len() - j,
            {
                let stop = j + cols;
                let mut chunk: Vec<char> = Vec::new();
                let mut k: usize = j;
                while k < stop
                    invariant
                        self.wf(),
                        lines == self.lines(),
                        self.row_offset <= i < lines.len(),
                        s == lines[i as int],
                        j <= k <= stop,
                        stop == j + cols,
                        stop <= s.len(),
                        chunk@ == s.subrange(j as int, k as int),
                    decreases stop - k,
                {
                    let c = self.buffer[i][k];
                    chunk.push(c);
                    proof {
                        assert(chunk@ =~= s.subrange(j as int, k + 1));
                    }
                    k = k + 1;
                }
                proof {
                    let tail = s.skip(j as int);
                    assert(tail.len() >= cols);
                    assert(chunk@ =~= tail.take(cols as int));
                    assert(tail.skip(cols as int) =~= s.skip(stop as int));
                    assert(wrap_line(tail, cols as int) == seq![tail.take(cols as int)] + wrap_line(
                        s.skip(stop as int),
                        cols as int,
                    ));
                    assert(done.push(chunk@) + wrap_line(s.skip(stop as int), cols as int) =~= done
                        + wrap_line(tail, cols as int));
                    // the new row extends the clipped output, which is not full yet
                    assert(row_views(out@).len() == out@.len());
                    assert((base + done).len() < rows);
                    assert(row_views(out@.push(chunk)).len() == out@.len() + 1);
                    let ghost newv = out@.push(chunk);
                    assert forall|x: int| 0 <= x < newv.len() implies row_views(newv)[x] == (base
                        + done.push(chunk@))[x] by {
                        assert(row_views(newv)[x] == newv[x]@);
                        if x < out@.len() {
                            assert(newv[x] == out@[x]);
                            assert(row_views(out@)[x] == out@[x]@);
                            assert(row_views(out@)[x] == (base + done)[x]);
                            if x >= base.len() {
                                assert((base + done.push(chunk@))[x] == done.push(chunk@)[x
                                    - base.len()]);
                                assert((base + done)[x] == done[x - base.len()]);
                            }
                        } else {
                            assert(newv[x] == chunk);
                            assert((base + done.push(chunk@))[x] == chunk@);
                        }
                    }
                    assert(row_views(out@.push(chunk)) =~= clip(
                        base + done.push(chunk@),
                        rows as int,
                    ));
                }
                out.push(chunk);
                proof {
                    done = done.push(chunk@);
                }
                j = stop;
            }
            if out.len() < rows {
                let line_len = self.buffer[i].len();
                let mut chunk: Vec<char> = Vec::new();
                let mut k: usize = j;
                while k < line_len
                    invariant
                        self.wf(),
                        lines == self.lines(),
                        self.row_offset <= i < lines.len(),
                        s == lines[i as int],
                        j <= k <= line_len,
                        line_len == s.len(),
                        chunk@ == s.subrange(j as int, k as int),
                    decreases line_len - k,
                {
                    let c = self.buffer[i][k];
                    chunk.push(c);
                    proof {
                        assert(chunk@ =~= s.subrange(j as int, k + 1));
                    }
                    k = k + 1;
                }
                proof {
                    let tail = s.skip(j as int);
                    assert(tail.len() < cols);
                    assert(chunk@ =~= tail);
                    assert(wrap_line(tail, cols as int) == seq![tail]);
                    assert(done.push(chunk@) =~= done + wrap_line(tail, cols as int));
                    assert(done.push(chunk@) == wrap_line(s, cols as int));
                    assert(row_views(out@).len() == out@.len());
                    assert((base + done).len() < rows);
                    assert(row_views(out@.push(chunk)).len() == out@.len() + 1);
                    let ghost newv = out@.push(chunk);
                    assert forall|x: int| 0 <= x < newv.len() implies row_views(newv)[x] == (base
                        + done.push(chunk@))[x] by {
                        assert(row_views(newv)[x] == newv[x]@);
                        if x < out@.len() {
                            assert(newv[x] == out@[x]);
                            assert(row_views(out@)[x] == out@[x]@);
                            assert(row_views(out@)[x] == (base + done)[x]);
                            if x >= base.len() {
                                assert((base + done.push(chunk@))[x] == done.push(chunk@)[x
                                    - base.len()]);
                                assert((base + done)[x] == done[x - base.len()]);
                            }
                        } else {
                            assert(newv[x] == chunk);
                            assert((base + done.push(chunk@))[x] == chunk@);
                        }
                    }
                    assert(row_views(out@.push(chunk)) =~= clip(
                        base + done.push(chunk@),
                        rows as int,
                    ));
                    lemma_rows_range_snoc(lines, self.row_offset as int, i as int, cols as int);
                    assert(base + wrap_line(s, cols as int) == rows_range(
                        lines,
                        self.row_offset as int,
                        i + 1,
                        cols as int,
                    ));
                }
                out.push(chunk);
            } else {
                proof {
                    // the window is full: everything further is clipped away
                    let full = base + wrap_line(s, cols as int);
                    assert(row_views(out@).len() == out@.len());
                    assert((base + done).len() >= rows);
                    assert(done.len() <= wrap_line(s, cols as int).len()) by {
                        assert((done + wrap_line(s.skip(j as int), cols as int)).len() == done.len()
                            + wrap_line(s.skip(j as int), cols as int).len());
                    }
                    assert forall|x: int| 0 <= x < rows implies (base + done)[x] == full[x] by {
                        if x >= base.len() {
                            assert((base + done)[x] == done[x - base.len()]);
                            assert(done[x - base.len()] == (done + wrap_line(
                                s.skip(j as int),
                                cols as int,
                            ))[x - base.len()]);
                            assert(full[x] == wrap_line(s, cols as int)[x - base.len()]);
                        }
                    }
                    assert(clip(base + done, rows as int) =~= clip(full, rows as int));
                    lemma_rows_range_snoc(lines, self.row_offset as int, i as int, cols as int);
                }
            }
            i = i + 1;
        }
        proof {
            if out@.len() < rows {
                assert(i as int >= lines.len());
                if (self.row_offset as int) <= lines.len() {
                    assert(i as int == lines.len());
                } else {
                    assert(rows_range(lines, self.row_offset as int, i as int, cols as int)
                        =~= goal);
                }
            } else {
                let part = rows_range(lines, self.row_offset as int, i as int, cols as int);
                lemma_rows_range_split(lines, self.row_offset as int, i as int, cols as int);
                assert(row_views(out@).len() == out@.len());
                assert(part.len() >= rows);
                assert(goal.len() >= part.len());
                assert(forall|x: int| 0 <= x < rows ==> part[x] == goal[x]);
                assert(clip(part, rows as int) =~= clip(goal, rows as int));
            }
        }
        let cursor = self.locate_cursor(rows, cols);
        Frame { rows: out, cursor }
    }

    /// Computes the cursor's physical coordinate on the grid, if it is on
    /// screen.
    fn locate_cursor(&self, rows: usize, cols: usize) -> (r: Option<Cursor>)
        requires
            self.wf(),
            rows >= 1,
            cols >= 1,
        ensures
            r == self.cursor_phys(rows as int, cols as int),
    {
        let ghost lines = self.lines();
        if self.cursor.row < self.row_offset {
            return None;
        }
        let crow = self.cursor.row;
        let off = self.row_offset;
        let mut prow: usize = 0;
        let mut t: usize = off;
        let mut off_screen = false;
        while t < crow && !off_screen
            invariant
                self.wf(),
                rows >= 1,
                cols >= 1,
                lines == self.lines(),
                crow == self.cursor.row,
                off == self.row_offset,
                off <= t <= crow,
                crow < lines.len(),
                !off_screen ==> prow as int == heights(lines, off as int, t as int, cols as int)
                    && prow < rows,
                off_screen ==> heights(lines, off as int, crow as int, cols as int) >= rows,
            decreases crow - t, (if off_screen { 0int } else { 1int }),
        {
            let hd = self.buffer[t].len() / cols;
            proof {
                assert(heights(lines, off as int, t + 1, cols as int) == heights(
                    lines,
                    off as int,
                    t as int,
                    cols as int,
                ) + wrap_height(lines[t as int], cols as int)) by {
                    lemma_heights_snoc(lines, off as int, t as int, cols as int);
                }
            }
            if hd >= rows - prow {
                off_screen = true;
                proof {
                    lemma_heights_mono(lines, off as int, t + 1, crow as int, cols as int);
                }
            } else {
                prow = prow + hd + 1;
                if prow >= rows {
                    off_screen = true;
                    proof {
                        lemma_heights_mono(lines, off as int, t + 1, crow as int, cols as int);
                    }
                }
                t = t + 1;
            }
        }
        if off_screen {
            proof {
                assert(self.cursor.column as int / cols as int >= 0);
            }
            return None;
        }
        let cd = self.cursor.column / cols;
        if cd >= rows - prow {
            None
        } else {
            Some(Cursor { row: prow + cd, column: self.cursor.column % cols })
        }
    }
}

/// An on-screen cursor coordinate always points at a rendered physical
/// row: the row the cursor mapping names exists in the clipped frame.
pub proof fn lemma_cursor_row_is_rendered(d: &Dentaku, rows: int, cols: int)
    requires
        d.wf(),
        rows >= 1,
        cols >= 1,
    ensures
        match d.cursor_phys(rows, cols) {
            Some(c) => (c.row as int) < clip(
                rows_range(d.lines(), d.row_offset as int, d.lines().len() as int, cols),
                rows,
            ).len(),
            None => true,
        },
{
    let lines = d.lines();
    let off = d.row_offset as int;
    let crow = d.cursor.row as int;
    let col = d.cursor.column as int;
    if d.cursor_phys(rows, cols) is Some {
        let pr = d.cursor_phys_row(cols);
        lemma_heights_nonneg(lines, off, crow, cols);
        // the cursor's column stays within its own line's wrapped rows
        assert(col / cols <= lines[crow].len() as int / cols) by {
            vstd::arithmetic::div_mod::lemma_div_is_ordered(col, lines[crow].len() as int, cols);
        }
        lemma_heights_snoc(lines, off, crow, cols);
        assert(pr < heights(lines, off, crow + 1, cols));
        lemma_heights_mono(lines, off, crow + 1, lines.len() as int, cols);
        lemma_rows_range_len(lines, off, lines.len() as int, cols);
    }
}

/// A rendered prefix of the lines is a prefix of the whole rendering.
proof fn lemma_rows_range_split(lines: Seq<Seq<char>>, off: int, mid: int, cols: int)
    requires
        cols >= 1,
        0 <= off,
        off <= mid <= lines.len(),
    ensures
        rows_range(lines, off, mid, cols).len() <= rows_range(lines, off, lines.len() as int, cols).len(),
        forall|x: int|
            0 <= x < rows_range(lines, off, mid, cols).len() ==> rows_range(lines, off, mid, cols)[x]
                == rows_range(lines, off, lines.len() as int, cols)[x],
    decreases lines.len() - mid,
{
    if mid < lines.len() {
        lemma_rows_range_snoc(lines, off, mid, cols);
        lemma_rows_range_split(lines, off, mid + 1, cols);
        lemma_wrap_line_no_loss(lines[mid], cols);
        let part = rows_range(lines, off, mid, cols);
        let next = rows_range(lines, off, mid + 1, cols);
        assert(next.len() == part.len() + wrap_line(lines[mid], cols).len());
        assert forall|x: int| 0 <= x < part.len() implies part[x] == rows_range(
            lines,
            off,
            lines.len() as int,
            cols,
        )[x] by {
            assert(next[x] == part[x]);
        }
    }
}

/// Extending a height range by one line adds that line's height.
proof fn lemma_heights_snoc(lines: Seq<Seq<char>>, off: int, end: int, cols: int)
    requires
        0 <= off <= end < lines.len(),
    ensures
        heights(lines, off, end + 1, cols) == heights(lines, off, end, cols) + wrap_height(
            lines[end],
            cols,
        ),
    decreases end - off,
{
    if off >= end {
        assert(heights(lines, end, end + 1, cols) == wrap_height(lines[end], cols) + heights(
            lines,
            end + 1,
            end + 1,
            cols,
        ));
    } else {
        lemma_heights_snoc(lines, off + 1, end, cols);
    }
}

} // verus!
