//! Screen areas, displayable entities and related utilities

use vstd::prelude::*;

use super::commands::DrawCommand;

verus! {

/// Whether an entity of the given size placed at `pos` lies within the screen's coordinates
pub open spec fn fits_at(pos: (u16, u16), rows: int, cols: int) -> bool {
    pos.0 + rows <= 0x10000 && pos.1 + cols <= 0x10000
}

/// Displayable entity
pub trait Entity: Sized {
    /// Type of the entity after placing
    ///
    /// In the most simple case, e.g. if only an initial state of the entity has
    /// to be drawn, this can be `()`.
    type PlacedEntity;

    /// The number of rows the entity covers
    spec fn spec_rows(&self) -> int;

    /// The number of columns the entity covers
    spec fn spec_cols(&self) -> int;

    /// Retrieve the number of rows the entity covers
    fn rows(&self) -> (r: u16)
        ensures
            r == self.spec_rows(),
    ;

    /// Retrieve the number of columns the entity covers
    fn cols(&self) -> (r: u16)
        ensures
            r == self.spec_cols(),
    ;

    /// Create an initialization of the placed entity
    ///
    /// The returned initialization contains instructions for drawing the
    /// entity's initial state. The function expects the first element of `pos`
    /// to contain the topmost row and the second to contain the leftmost
    /// column of the area reserved for the entity.
    fn init(&self, pos: (u16, u16)) -> PlacedInit
        requires
            fits_at(pos, self.spec_rows(), self.spec_cols()),
    ;

    /// Place the entity
    ///
    /// This function places the entity on the given position and returns a
    /// value representing the entity after being placed. The function expects
    /// the first element of `pos` to contain the topmost row and the second to
    /// contain the leftmost column of the area reserved for the entity.
    fn place(self, pos: (u16, u16)) -> Self::PlacedEntity
        requires
            fits_at(pos, self.spec_rows(), self.spec_cols()),
    ;
}

/// Instructions for drawing the entity's initial state
#[derive(Debug)]
pub struct PlacedInit {
    cmds: Vec<DrawCommand>,
}

impl PlacedInit {
    /// The draw commands, in order
    pub closed spec fn spec_commands(&self) -> Seq<DrawCommand> {
        self.cmds@
    }

    /// Create an initialization from a list of draw commands
    pub fn new(cmds: Vec<DrawCommand>) -> (r: Self)
        ensures
            r.spec_commands() == cmds@,
    {
        PlacedInit { cmds }
    }

    /// Retrieve the draw commands
    pub fn commands(self) -> (r: Vec<DrawCommand>)
        ensures
            r@ == self.spec_commands(),
    {
        self.cmds
    }
}

/// Representation of a rectangular area of the screen
///
/// The area covers the rows from `row_a` up to, but not including, `row_b`
/// and the columns from `col_a` up to, but not including, `col_b`.
#[derive(Copy, Clone, Debug, PartialEq, Eq, Structural)]
pub struct Area {
    /// First row of the area
    row_a: u16,
    /// First column of the area
    col_a: u16,
    /// First row outside the area
    row_b: u16,
    /// First column outside the area
    col_b: u16,
}

/// The smaller of two numbers
pub open spec fn min(a: int, b: int) -> int {
    if a <= b {
        a
    } else {
        b
    }
}

/// The larger of two numbers
pub open spec fn max(a: int, b: int) -> int {
    if a >= b {
        a
    } else {
        b
    }
}

impl Area {
    #[verifier::type_invariant]
    spec fn inv(self) -> bool {
        self.row_a <= self.row_b && self.col_a <= self.col_b
    }

    /// First row of the area
    pub closed spec fn top(&self) -> int {
        self.row_a as int
    }

    /// First column of the area
    pub closed spec fn left(&self) -> int {
        self.col_a as int
    }

    /// First row below the area
    pub closed spec fn bottom(&self) -> int {
        self.row_b as int
    }

    /// First column right of the area
    pub closed spec fn right(&self) -> int {
        self.col_b as int
    }

    /// Create an area covering a screen of the given size
    pub fn new(rows: u16, cols: u16) -> (r: Self)
        ensures
            r.top() == 0,
            r.left() == 0,
            r.bottom() == rows,
            r.right() == cols,
    {
        Area { row_a: 0, col_a: 0, row_b: rows, col_b: cols }
    }

    /// Retrieve the number of rows covered by the area
    pub fn rows(&self) -> (r: u16)
        ensures
            r == self.bottom() - self.top(),
    {
        proof {
            use_type_invariant(self);
        }
        self.row_b - self.row_a
    }

    /// Retrieve the number of columns covered by the area
    pub fn cols(&self) -> (r: u16)
        ensures
            r == self.right() - self.left(),
    {
        proof {
            use_type_invariant(self);
        }
        self.col_b - self.col_a
    }

    /// Split off rows from the top
    ///
    /// The returned sub-area will cover the given number of rows, or all rows
    /// if there are fewer. Those rows will be taken from the area on which the
    /// function is called.
    pub fn split_top(&mut self, rows: u16) -> (r: Area)
        ensures
            r.top() == old(self).top(),
            r.bottom() == min(old(self).top() + rows, old(self).bottom()),
            r.left() == old(self).left(),
            r.right() == old(self).right(),
            final(self).top() == r.bottom(),
            final(self).bottom() == old(self).bottom(),
            final(self).left() == old(self).left(),
            final(self).right() == old(self).right(),
    {
        proof {
            use_type_invariant(&*self);
        }
        let row_a = self.row_a;
        let row_b = if rows <= self.row_b - self.row_a {
            self.row_a + rows
        } else {
            self.row_b
        };
        self.row_a = row_b;
        Area { row_a, col_a: self.col_a, row_b, col_b: self.col_b }
    }

    /// Split off columns from the left
    ///
    /// The returned sub-area will cover the given number of columns, or all
    /// columns if there are fewer. Those columns will be taken from the area on
    /// which the function is called.
    pub fn split_left(&mut self, cols: u16) -> (r: Area)
        ensures
            r.left() == old(self).left(),
            r.right() == min(old(self).left() + cols, old(self).right()),
            r.top() == old(self).top(),
            r.bottom() == old(self).bottom(),
            final(self).left() == r.right(),
            final(self).right() == old(self).right(),
            final(self).top() == old(self).top(),
            final(self).bottom() == old(self).bottom(),
    {
        proof {
            use_type_invariant(&*self);
        }
        let col_a = self.col_a;
        let col_b = if cols <= self.col_b - self.col_a {
            self.col_a + cols
        } else {
            self.col_b
        };
        self.col_a = col_b;
        Area { row_a: self.row_a, col_a, row_b: self.row_b, col_b }
    }

    /// Remove the given number of rows from the top
    pub fn pad_top(self, rows: u16) -> (r: Self)
        ensures
            r.top() == min(self.top() + rows, self.bottom()),
            r.bottom() == self.bottom(),
            r.left() == self.left(),
            r.right() == self.right(),
    {
        proof {
            use_type_invariant(&self);
        }
        let row_a = if rows <= self.row_b - self.row_a {
            self.row_a + rows
        } else {
            self.row_b
        };
        Area { row_a, ..self }
    }

    /// Remove the given number of rows from the bottom
    pub fn pad_bottom(self, rows: u16) -> (r: Self)
        ensures
            r.bottom() == max(self.top(), self.bottom() - rows),
            r.top() == self.top(),
            r.left() == self.left(),
            r.right() == self.right(),
    {
        proof {
            use_type_invariant(&self);
        }
        let row_b = if rows <= self.row_b - self.row_a {
            self.row_b - rows
        } else {
            self.row_a
        };
        Area { row_b, ..self }
    }

    /// Remove the given number of columns from the left
    pub fn pad_left(self, cols: u16) -> (r: Self)
        ensures
            r.left() == min(self.left() + cols, self.right()),
            r.right() == self.right(),
            r.top() == self.top(),
            r.bottom() == self.bottom(),
    {
        proof {
            use_type_invariant(&self);
        }
        let col_a = if cols <= self.col_b - self.col_a {
            self.col_a + cols
        } else {
            self.col_b
        };
        Area { col_a, ..self }
    }

    /// Remove the given number of columns from the right
    pub fn pad_right(self, cols: u16) -> (r: Self)
        ensures
            r.right() == max(self.left(), self.right() - cols),
            r.left() == self.left(),
            r.top() == self.top(),
            r.bottom() == self.bottom(),
    {
        proof {
            use_type_invariant(&self);
        }
        let col_b = if cols <= self.col_b - self.col_a {
            self.col_b - cols
        } else {
            self.col_a
        };
        Area { col_b, ..self }
    }

    /// Compute the position of an entity of the given size centered in the area
    ///
    /// The entity will be centered both horizontally and vertically. The
    /// function returns the topmost row and the leftmost column of the entity,
    /// or `None` if the entity does not fit into the area.
    pub fn center(&self, rows: u16, cols: u16) -> (r: Option<(u16, u16)>)
        ensures
            r is Some <==> rows <= self.bottom() - self.top() && cols <= self.right() - self.left(),
            r matches Some(pos) ==> {
                &&& pos.0 == self.top() + (self.bottom() - self.top() - rows) / 2
                &&& pos.1 == self.left() + (self.right() - self.left() - cols) / 2
                &&& fits_at(pos, rows as int, cols as int)
            },
    {
        proof {
            use_type_invariant(self);
        }
        let total_rows = self.row_b - self.row_a;
        let total_cols = self.col_b - self.col_a;
        if rows <= total_rows && cols <= total_cols {
            Some((self.row_a + (total_rows - rows) / 2, self.col_a + (total_cols - cols) / 2))
        } else {
            None
        }
    }
}

} // verus!
