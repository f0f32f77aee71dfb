//! Dynamic text entity

use vstd::prelude::*;

use super::area::{fits_at, Entity, PlacedInit};
use super::commands::{is_text, text, DrawCommand};
use super::text::{center, centered};

verus! {

/// Representation of a field for arbitrary text to display
///
/// An instance of this type itself is useless unless it is placed in an `Area`.
#[derive(Copy, Clone, Debug)]
pub struct DynamicText {
    rows: u16,
    cols: u16,
}

impl DynamicText {
    #[verifier::type_invariant]
    spec fn inv(self) -> bool {
        self.rows > 0 && self.cols > 0
    }

    /// Create a new text field covering the given number of rows and columns
    pub fn new(rows: u16, cols: u16) -> (r: Self)
        requires
            rows > 0,
            cols > 0,
        ensures
            r.spec_rows() == rows,
            r.spec_cols() == cols,
    {
        DynamicText { rows, cols }
    }

    /// Create a new text field covering a single line with the given width
    pub fn new_line(cols: u16) -> (r: Self)
        requires
            cols > 0,
        ensures
            r.spec_rows() == 1,
            r.spec_cols() == cols,
    {
        DynamicText { rows: 1, cols }
    }
}

impl Entity for DynamicText {
    type PlacedEntity = TextUpdater;

    closed spec fn spec_rows(&self) -> int {
        self.rows as int
    }

    closed spec fn spec_cols(&self) -> int {
        self.cols as int
    }

    fn rows(&self) -> (r: u16) {
        self.rows
    }

    fn cols(&self) -> (r: u16) {
        self.cols
    }

    fn init(&self, pos: (u16, u16)) -> (r: PlacedInit)
        ensures
            r.spec_commands().len() == 0,
    {
        PlacedInit::new(Vec::new())
    }

    fn place(self, pos: (u16, u16)) -> (r: TextUpdater)
        ensures
            r.spec_base() == pos,
            r.spec_rows() == self.spec_rows(),
            r.spec_cols() == self.spec_cols(),
    {
        proof {
            use_type_invariant(&self);
        }
        TextUpdater { base_row: pos.0, base_col: pos.1, rows: self.rows, cols: self.cols }
    }
}

/// Handle for updating a specific text field
#[derive(Copy, Clone, Debug)]
pub struct TextUpdater {
    base_row: u16,
    base_col: u16,
    rows: u16,
    cols: u16,
}

impl TextUpdater {
    #[verifier::type_invariant]
    spec fn inv(self) -> bool {
        &&& self.rows > 0
        &&& self.cols > 0
        &&& fits_at((self.base_row, self.base_col), self.rows as int, self.cols as int)
    }

    /// The topmost row and leftmost column of the text field
    pub closed spec fn spec_base(&self) -> (u16, u16) {
        (self.base_row, self.base_col)
    }

    /// The number of rows of the text field
    pub closed spec fn spec_rows(&self) -> int {
        self.rows as int
    }

    /// The number of columns of the text field
    pub closed spec fn spec_cols(&self) -> int {
        self.cols as int
    }

    /// `cmds`, from index `start`, fill row `row` of the text field with `line`
    pub open spec fn fills_row(&self, cmds: Seq<DrawCommand>, start: int, row: int, line: Seq<char>) -> bool {
        &&& cmds[start] == DrawCommand::SetPos((self.spec_base().0 + row) as u16, self.spec_base().1)
        &&& is_text(cmds[start + 1], centered(line, self.spec_cols()))
    }

    /// `cmds`, from index `start`, clear row `row` of the text field
    pub open spec fn clears_row(&self, cmds: Seq<DrawCommand>, start: int, row: int) -> bool {
        &&& cmds[start] == DrawCommand::SetPos((self.spec_base().0 + row) as u16, self.spec_base().1)
        &&& forall|k: int| 1 <= k <= self.spec_cols() ==> #[trigger] is_text(cmds[start + k], " "@)
    }

    /// The number of rows showing some of `n` lines
    pub open spec fn shown_rows(&self, n: int) -> int {
        if n < self.spec_rows() {
            n
        } else {
            self.spec_rows()
        }
    }

    /// The index of the commands clearing row `row` after showing `n` lines
    pub open spec fn clear_start(&self, n: int, row: int) -> int {
        2 * self.shown_rows(n) + (row - self.shown_rows(n)) * (self.spec_cols() + 1)
    }

    /// Draw commands clearing the entire field
    pub fn clear(&self) -> (r: Vec<DrawCommand>)
        ensures
            r.len() == self.spec_rows() * (self.spec_cols() + 1),
            forall|row: int|
                0 <= row < self.spec_rows() ==> #[trigger] self.clears_row(
                    r@,
                    row * (self.spec_cols() + 1),
                    row,
                ),
    {
        let r = self.update(&Vec::new());
        proof {
            assert forall|row: int| 0 <= row < self.spec_rows() implies #[trigger] self.clears_row(
                r@,
                row * (self.spec_cols() + 1),
                row,
            ) by {
                assert(self.clear_start(0, row) == row * (self.spec_cols() + 1));
            }
            assert(self.clear_start(0, self.spec_rows()) == self.spec_rows() * (self.spec_cols() + 1));
        }
        r
    }

    /// Draw commands updating the text field with the given contents
    ///
    /// The given lines will be put in the text field's top rows, each centered.
    /// Any rows for which no content was supplied will be cleared. Lines beyond
    /// the field's rows are not shown.
    ///
    /// A line must not contain any control characters. In particular, it must
    /// not contain `'\r'` or `'\n'`.
    pub fn update(&self, lines: &Vec<String>) -> (r: Vec<DrawCommand>)
        ensures
            r.len() == self.clear_start(lines.len() as int, self.spec_rows()),
            forall|row: int|
                0 <= row < self.shown_rows(lines.len() as int) ==> #[trigger] self.fills_row(
                    r@,
                    2 * row,
                    row,
                    lines[row]@,
                ),
            forall|row: int|
                self.shown_rows(lines.len() as int) <= row < self.spec_rows() ==> #[trigger] self.clears_row(
                    r@,
                    self.clear_start(lines.len() as int, row),
                    row,
                ),
    {
        proof {
            use_type_invariant(self);
        }
        let shown: u16 = if lines.len() < self.rows as usize {
            lines.len() as u16
        } else {
            self.rows
        };
        let mut r: Vec<DrawCommand> = Vec::new();
        let mut row: u16 = 0;
        while row < shown
            invariant
                row <= shown <= self.rows,
                shown <= lines.len(),
                fits_at((self.base_row, self.base_col), self.rows as int, self.cols as int),
                r.len() == 2 * row,
                forall|k: int| 0 <= k < row ==> #[trigger] self.fills_row(r@, 2 * k, k, lines[k]@),
            decreases shown - row,
        {
            let ghost before = r@;
            r.push(self.row_pos(row));
            r.push(DrawCommand::Text(center(lines[row as usize].as_str(), self.cols as usize)));
            proof {
                assert forall|k: int| 0 <= k < row + 1 implies #[trigger] self.fills_row(
                    r@,
                    2 * k,
                    k,
                    lines[k]@,
                ) by {
                    if k < row {
                        assert(self.fills_row(before, 2 * k, k, lines[k]@));
                        assert(r@[2 * k] == before[2 * k]);
                        assert(r@[2 * k + 1] == before[2 * k + 1]);
                    }
                }
            }
            row = row + 1;
        }
        let ghost filled = r@;
        let width = self.cols as usize + 1;
        assert((row - shown) * width == 0) by (nonlinear_arith)
            requires
                row == shown,
        ;
        while row < self.rows
            invariant
                shown <= row <= self.rows,
                fits_at((self.base_row, self.base_col), self.rows as int, self.cols as int),
                width == self.cols + 1,
                r.len() == 2 * shown + (row - shown) * width,
                r@.take(2 * shown) == filled.take(2 * shown),
                filled.len() == 2 * shown,
                forall|k: int|
                    shown <= k < row ==> #[trigger] self.clears_row(
                        r@,
                        2 * shown + (k - shown) * width,
                        k,
                    ),
            decreases self.rows - row,
        {
            let ghost before = r@;
            let start = r.len();
            r.push(self.row_pos(row));
            let ghost with_pos = r@;
            let mut blank = self.empty_row();
            let ghost blank_view = blank@;
            r.append(&mut blank);
            proof {
                assert(r@.take(start as int) =~= before);
                assert forall|k: int| 1 <= k <= self.cols implies #[trigger] is_text(
                    r@[start + k],
                    " "@,
                ) by {
                    assert(r@[start + k] == blank_view[k - 1]);
                }
                assert(start == 2 * shown + (row - shown) * width) by (nonlinear_arith)
                    requires
                        start == 2 * shown + (row - shown) * width,
                ;
                assert(r.len() == 2 * shown + (row + 1 - shown) * width) by (nonlinear_arith)
                    requires
                        r.len() == start + 1 + self.cols,
                        start == 2 * shown + (row - shown) * width,
                        width == self.cols + 1,
                ;
                assert forall|k: int| shown <= k < row + 1 implies #[trigger] self.clears_row(
                    r@,
                    2 * shown + (k - shown) * width,
                    k,
                ) by {
                    if k < row {
                        let s = 2 * shown + (k - shown) * width;
                        assert(self.clears_row(before, s, k));
                        assert(s + width <= start) by (nonlinear_arith)
                            requires
                                s == 2 * shown + (k - shown) * width,
                                start == 2 * shown + (row - shown) * width,
                                k < row,
                                width >= 1,
                        ;
                        assert(r@[s] == before[s]);
                        assert forall|j: int| 1 <= j <= self.cols implies #[trigger] is_text(
                            r@[s + j],
                            " "@,
                        ) by {
                            assert(r@[s + j] == before[s + j]);
                            assert(is_text(before[s + j], " "@));
                        }
                    }
                }
                assert(r@.take(2 * shown) =~= filled.take(2 * shown)) by {
                    assert forall|j: int| 0 <= j < 2 * shown implies r@[j] == before[j] by {}
                }
            }
            row = row + 1;
        }
        proof {
            assert forall|k: int| 0 <= k < shown implies #[trigger] self.fills_row(
                r@,
                2 * k,
                k,
                lines[k]@,
            ) by {
                assert(self.fills_row(filled, 2 * k, k, lines[k]@));
                assert(r@.take(2 * shown)[2 * k] == filled.take(2 * shown)[2 * k]);
                assert(r@.take(2 * shown)[2 * k + 1] == filled.take(2 * shown)[2 * k + 1]);
            }
        }
        r
    }

    /// The draw command setting the cursor to the given row's starting position
    fn row_pos(&self, row: u16) -> (r: DrawCommand)
        requires
            row < self.spec_rows(),
        ensures
            r == DrawCommand::SetPos((self.spec_base().0 + row) as u16, self.spec_base().1),
    {
        proof {
            use_type_invariant(self);
        }
        DrawCommand::SetPos(self.base_row + row, self.base_col)
    }

    /// Draw commands filling a row with space characters
    fn empty_row(&self) -> (r: Vec<DrawCommand>)
        ensures
            r.len() == self.spec_cols(),
            forall|k: int| 0 <= k < self.spec_cols() ==> #[trigger] is_text(r[k], " "@),
    {
        let mut r: Vec<DrawCommand> = Vec::new();
        let mut c: u16 = 0;
        while c < self.cols
            invariant
                c <= self.cols,
                r.len() == c,
                forall|k: int| 0 <= k < c ==> #[trigger] is_text(r[k], " "@),
            decreases self.cols - c,
        {
            r.push(text(" "));
            c = c + 1;
        }
        r
    }

    /// Draw commands updating the text field with the given single row content
    ///
    /// The given contents will be placed in the text field's top row. Any
    /// remaining rows are cleared.
    pub fn update_single(&self, line: String) -> (r: Vec<DrawCommand>)
        ensures
            r.len() == 2 + (self.spec_rows() - 1) * (self.spec_cols() + 1),
            self.fills_row(r@, 0, 0, line@),
            forall|row: int|
                1 <= row < self.spec_rows() ==> #[trigger] self.clears_row(
                    r@,
                    2 + (row - 1) * (self.spec_cols() + 1),
                    row,
                ),
    {
        proof {
            use_type_invariant(self);
        }
        let mut lines: Vec<String> = Vec::new();
        lines.push(line);
        let r = self.update(&lines);
        proof {
            assert(lines[0]@ == line@);
            assert(self.shown_rows(1) == 1);
            assert(self.fills_row(r@, 2 * 0int, 0int, lines[0]@));
            assert forall|row: int| 1 <= row < self.spec_rows() implies #[trigger] self.clears_row(
                r@,
                2 + (row - 1) * (self.spec_cols() + 1),
                row,
            ) by {
                assert(self.clear_start(1, row) == 2 + (row - 1) * (self.spec_cols() + 1));
            }
            assert(self.clear_start(1, self.spec_rows()) == 2 + (self.spec_rows() - 1) * (
            self.spec_cols() + 1));
        }
        r
    }
}

} // verus!
