//! Play field entity

use vstd::prelude::*;

use crate::field::movement::update_view;
use crate::field::Update;
use crate::util::{self, pos_view, Position, FIELD_HEIGHT, FIELD_WIDTH};

use super::area::{fits_at, Entity, PlacedInit};
use super::commands::{is_text, text, Brightness, Colour, DrawCommand, SGR};

verus! {

broadcast use crate::util::group_index_bounds;

/// Representation of a play field entity
///
/// An instance of this type itself is useless unless it is placed in an `Area`.
#[derive(Copy, Clone, Debug, Default)]
pub struct PlayField;

impl PlayField {
    /// Create a new play field
    pub fn new() -> (r: Self) {
        PlayField
    }
}

/// Number of rows a play field covers
pub open spec fn play_field_rows() -> int {
    FIELD_HEIGHT + 3
}

/// Number of columns a play field covers
pub open spec fn play_field_cols() -> int {
    2 * FIELD_WIDTH + 2
}

/// Number of text segments the outline of a play field consists of
pub open spec fn outline_len() -> int {
    2 * FIELD_HEIGHT + 3
}

/// The text segments forming the outline of a play field, as row and column
/// relative to the play field and text
///
/// The outline consists of the inlet on top, the ceiling, the walls and the
/// floor of the bottle.
pub open spec fn outline_segment(k: int) -> (int, int, Seq<char>) {
    if k == 0 {
        (0, 6, "\\    /"@)
    } else if k == 1 {
        (1, 1, "_____/    \\_____"@)
    } else if k == 2 {
        (2, 0, "/"@)
    } else if k == 3 {
        (2, 17, "\\"@)
    } else if k < outline_len() - 1 {
        let row = 2 + (k - 2) / 2;
        if k % 2 == 0 {
            (row, 0, "|"@)
        } else {
            (row, 17, "|"@)
        }
    } else {
        (18, 0, "\\________________/"@)
    }
}

/// `cmds` draws the given text segments relative to `base`: each segment is
/// placed via a cursor positioning followed by its text
pub open spec fn draws_outline(cmds: Seq<DrawCommand>, base: (u16, u16)) -> bool {
    &&& cmds.len() == 2 * outline_len()
    &&& forall|k: int|
        0 <= k < outline_len() ==> {
            let seg = #[trigger] outline_segment(k);
            &&& cmds[2 * k] == DrawCommand::SetPos(
                (base.0 + seg.0) as u16,
                (base.1 + seg.1) as u16,
            )
            &&& is_text(cmds[2 * k + 1], seg.2)
        }
}

impl Entity for PlayField {
    type PlacedEntity = FieldUpdater;

    open spec fn spec_rows(&self) -> int {
        play_field_rows()
    }

    open spec fn spec_cols(&self) -> int {
        play_field_cols()
    }

    fn rows(&self) -> (r: u16) {
        FIELD_HEIGHT as u16 + 3
    }

    fn cols(&self) -> (r: u16) {
        2 * FIELD_WIDTH as u16 + 2
    }

    fn init(&self, pos: (u16, u16)) -> (r: PlacedInit)
        ensures
            draws_outline(r.spec_commands(), pos),
    {
        let (base_row, base_col) = pos;
        let mut res: Vec<DrawCommand> = Vec::new();

        // Upper part of inlet
        res.push(DrawCommand::SetPos(base_row, base_col + 6));
        res.push(text("\\    /"));

        // Bottle ceiling, with lower part of inlet
        res.push(DrawCommand::SetPos(base_row + 1, base_col + 1));
        res.push(text("_____/    \\_____"));
        res.push(DrawCommand::SetPos(base_row + 2, base_col));
        res.push(text("/"));
        res.push(DrawCommand::SetPos(base_row + 2, base_col + 17));
        res.push(text("\\"));

        // Left and right wall
        let mut row: u16 = 1;
        while row < FIELD_HEIGHT as u16
            invariant
                1 <= row <= FIELD_HEIGHT,
                fits_at(pos, play_field_rows(), play_field_cols()),
                base_row == pos.0 && base_col == pos.1,
                res.len() == 4 * (row + 1),
                forall|k: int|
                    0 <= k < 2 * (row + 1) ==> {
                        let seg = #[trigger] outline_segment(k);
                        &&& res[2 * k] == DrawCommand::SetPos(
                            (pos.0 + seg.0) as u16,
                            (pos.1 + seg.1) as u16,
                        )
                        &&& is_text(res[2 * k + 1], seg.2)
                    },
            decreases FIELD_HEIGHT - row,
        {
            let screen_row = base_row + 2 + row;
            res.push(DrawCommand::SetPos(screen_row, base_col));
            res.push(text("|"));
            res.push(DrawCommand::SetPos(screen_row, base_col + 17));
            res.push(text("|"));
            proof {
                let k = 2 * row + 2;
                assert(outline_segment(k) == (2 + row as int, 0int, "|"@));
                assert(outline_segment(k + 1) == (2 + row as int, 17int, "|"@));
            }
            row = row + 1;
        }

        // Bottle floor
        res.push(DrawCommand::SetPos(base_row + 2 + FIELD_HEIGHT as u16, base_col));
        res.push(text("\\________________/"));
        PlacedInit::new(res)
    }

    fn place(self, pos: (u16, u16)) -> (r: FieldUpdater)
        ensures
            r.base() == pos,
    {
        FieldUpdater { base_row: pos.0, base_col: pos.1 }
    }
}

/// Handle for updating the play field entity
#[derive(Copy, Clone, Debug)]
pub struct FieldUpdater {
    base_row: u16,
    base_col: u16,
}

/// `cmd` selects the given colour of the game as foreground colour
pub open spec fn selects_colour(cmd: DrawCommand, colour: util::Colour) -> bool {
    cmd == DrawCommand::Format(
        SGR::FGColour(Some((Colour::spec_from_colour(colour), Brightness::Dark))),
    )
}

/// Number of draw commands depicting the given updates
pub open spec fn update_commands_len(updates: Seq<Update>) -> int
    decreases updates.len(),
{
    if updates.len() == 0 {
        0
    } else {
        update_commands_len(updates.drop_last()) + if updates.last().1 is Some {
            3int
        } else {
            2int
        }
    }
}

/// The number of commands for updates is never negative.
proof fn lemma_update_commands_len_nonneg(updates: Seq<Update>)
    ensures
        update_commands_len(updates) >= 0,
    decreases updates.len(),
{
    if updates.len() > 0 {
        lemma_update_commands_len_nonneg(updates.drop_last());
    }
}

impl FieldUpdater {
    #[verifier::type_invariant]
    spec fn inv(self) -> bool {
        fits_at((self.base_row, self.base_col), play_field_rows(), play_field_cols())
    }

    /// The topmost row and leftmost column of the placed play field
    pub closed spec fn base(&self) -> (u16, u16) {
        (self.base_row, self.base_col)
    }

    /// The position on screen of a tile of the field
    pub open spec fn screen_pos(&self, p: (int, int)) -> DrawCommand {
        DrawCommand::SetPos((self.base().0 + 2 + p.0) as u16, (self.base().1 + 1 + 2 * p.1) as u16)
    }

    /// Transform field positions to display positions
    fn transform(&self, pos: Position) -> (r: DrawCommand)
        ensures
            r == self.screen_pos(pos_view(pos)),
    {
        proof {
            use_type_invariant(self);
        }
        DrawCommand::SetPos(
            self.base_row + 2 + pos.0.index() as u16,
            self.base_col + 1 + 2 * pos.1.index() as u16,
        )
    }

    /// Draw commands placing viruses in the field
    ///
    /// For each of the items in `viruses`, one virus will be placed in the
    /// field, at the given position and with the given colour.
    pub fn place_viruses(&self, viruses: &Vec<(Position, util::Colour)>, vir_sym: VirusSym) -> (r:
        Vec<DrawCommand>)
        ensures
            r.len() == 3 * viruses.len(),
            forall|i: int|
                0 <= i < viruses.len() ==> {
                    &&& r[3 * i] == self.screen_pos(pos_view(#[trigger] viruses[i].0))
                    &&& selects_colour(r[3 * i + 1], viruses[i].1)
                    &&& is_text(r[3 * i + 2], vir_sym.spec_symbol()@)
                },
    {
        let mut r: Vec<DrawCommand> = Vec::new();
        let mut i: usize = 0;
        while i < viruses.len()
            invariant
                i <= viruses.len(),
                r.len() == 3 * i,
                forall|j: int|
                    0 <= j < i ==> {
                        &&& r[3 * j] == self.screen_pos(pos_view(#[trigger] viruses[j].0))
                        &&& selects_colour(r[3 * j + 1], viruses[j].1)
                        &&& is_text(r[3 * j + 2], vir_sym.spec_symbol()@)
                    },
            decreases viruses.len() - i,
        {
            let (pos, colour) = viruses[i];
            r.push(self.transform(pos));
            r.push(DrawCommand::Format(SGR::foreground(Colour::from(colour))));
            r.push(text(vir_sym.symbol()));
            i = i + 1;
        }
        r
    }

    /// Draw commands placing the next capsule elements in the appropriate position
    pub fn place_next_elements(&self, capsule: &[util::Colour; 2]) -> (r: Vec<DrawCommand>)
        ensures
            r.len() == 5,
            r[0] == DrawCommand::SetPos(
                (self.base().0 + 1) as u16,
                (self.base().1 + 1 + FIELD_WIDTH - 2) as u16,
            ),
            selects_colour(r[1], capsule[0]),
            is_text(r[2], "()"@),
            selects_colour(r[3], capsule[1]),
            is_text(r[4], "()"@),
    {
        proof {
            use_type_invariant(self);
        }
        let row = self.base_row + 1;
        let col = self.base_col + 1 + FIELD_WIDTH as u16 - 2;
        let mut r: Vec<DrawCommand> = Vec::new();
        r.push(DrawCommand::SetPos(row, col));
        r.push(DrawCommand::Format(SGR::foreground(Colour::from(capsule[0]))));
        r.push(text("()"));
        r.push(DrawCommand::Format(SGR::foreground(Colour::from(capsule[1]))));
        r.push(text("()"));
        r
    }

    /// Draw commands processing field updates
    ///
    /// Each item in `updates` will be processed in order: if the update carries
    /// a colour, a capsule element of the given colour will be placed at the
    /// given position. Otherwise, any element at the given position will be
    /// erased.
    pub fn update(&self, updates: &Vec<Update>) -> (r: Vec<DrawCommand>)
        ensures
            r.len() == update_commands_len(updates@),
            forall|i: int| 0 <= i < updates.len() ==> #[trigger] self.update_drawn(r@, updates@, i),
    {
        let mut r: Vec<DrawCommand> = Vec::new();
        let mut i: usize = 0;
        while i < updates.len()
            invariant
                i <= updates.len(),
                r.len() == update_commands_len(updates@.take(i as int)),
                forall|j: int| 0 <= j < i ==> #[trigger] self.update_drawn(r@, updates@, j),
            decreases updates.len() - i,
        {
            let (pos, colour) = updates[i];
            let ghost before = r@;
            r.push(self.transform(pos));
            match colour {
                Some(c) => {
                    r.push(DrawCommand::Format(SGR::foreground(Colour::from(c))));
                    r.push(text("()"));
                },
                None => {
                    r.push(text("  "));
                },
            }
            proof {
                assert(updates@.take(i + 1).drop_last() =~= updates@.take(i as int));
                assert(r@.take(before.len() as int) =~= before);
                assert forall|j: int| 0 <= j < i + 1 implies #[trigger] self.update_drawn(
                    r@,
                    updates@,
                    j,
                ) by {
                    if j == i {
                        let start = update_commands_len(updates@.take(j));
                        assert(start == before.len());
                        assert(r@[start] == self.screen_pos(pos_view(pos)));
                        assert(updates@[j] == (pos, colour));
                    }
                    if j < i {
                        lemma_update_commands_len_step(updates@, j, i as int);
                        assert(self.update_drawn(before, updates@, j));
                        let sj = update_commands_len(updates@.take(j));
                        let n = before.len() as int;
                        lemma_update_commands_len_nonneg(updates@.take(j));
                        assert(sj + 2 <= n);
                        assert(r@.take(n)[sj] == r@[sj]);
                        assert(r@.take(n)[sj + 1] == r@[sj + 1]);
                        if updates@[j].1 is Some {
                            assert(sj + 3 <= n);
                            assert(r@.take(n)[sj + 2] == r@[sj + 2]);
                        }
                    }
                }
            }
            i = i + 1;
        }
        assert(updates@.take(updates.len() as int) =~= updates@);
        r
    }

    /// The commands for the update at index `i` are at their place in `cmds`
    ///
    /// They position the cursor on the tile, then either select the colour and
    /// draw an element, or clear the tile.
    pub open spec fn update_drawn(&self, cmds: Seq<DrawCommand>, updates: Seq<Update>, i: int) -> bool {
        let start = update_commands_len(updates.take(i));
        let u = updates[i];
        &&& cmds[start] == self.screen_pos(pos_view(u.0))
        &&& match u.1 {
            Some(c) => selects_colour(cmds[start + 1], c) && is_text(cmds[start + 2], "()"@),
            None => is_text(cmds[start + 1], "  "@),
        }
    }
}

/// The commands of an earlier update end before those of a later one start.
proof fn lemma_update_commands_len_step(updates: Seq<Update>, j: int, i: int)
    requires
        0 <= j < i <= updates.len(),
    ensures
        update_commands_len(updates.take(j)) + (if updates[j].1 is Some {
            3int
        } else {
            2int
        }) <= update_commands_len(updates.take(i)),
    decreases i - j,
{
    assert(updates.take(j + 1).drop_last() =~= updates.take(j));
    if j + 1 < i {
        assert(updates.take(i).drop_last() =~= updates.take(i - 1));
        lemma_update_commands_len_step(updates, j, i - 1);
    }
}

/// Helper for graphical representations of viruses
#[derive(Copy, Clone, Debug, PartialEq, Eq, Structural)]
pub enum VirusSym {
    A,
    B,
}

impl VirusSym {
    /// This representation as text
    pub open spec fn spec_symbol(&self) -> &'static str {
        match self {
            VirusSym::A => "><",
            VirusSym::B => "--",
        }
    }

    /// Return this virus representation flipped
    pub fn flipped(&self) -> (r: Self)
        ensures
            r == match self {
                VirusSym::A => VirusSym::B,
                VirusSym::B => VirusSym::A,
            },
    {
        match self {
            VirusSym::A => VirusSym::B,
            VirusSym::B => VirusSym::A,
        }
    }

    /// Return this graphical representation as a str
    pub fn symbol(&self) -> (r: &'static str)
        ensures
            r == self.spec_symbol(),
    {
        match self {
            VirusSym::A => "><",
            VirusSym::B => "--",
        }
    }
}

impl Default for VirusSym {
    fn default() -> (r: Self)
        ensures
            r == VirusSym::A,
    {
        VirusSym::A
    }
}

} // verus!
