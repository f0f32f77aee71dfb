//! Score board entity

use vstd::prelude::*;

use super::area::{fits_at, Entity, PlacedInit};
use super::commands::{
    apply_command, apply_commands, cell, command_view, lemma_apply_commands_first,
    lemma_apply_commands_join, lemma_put_text, put_text,
    text, CommandView, DrawCommand, Intensity, SGR,
};
use super::text::{decimal, decimal_chars, pad_left, pad_right, padded_left, padded_right, spaces};

verus! {

/// Column of the entry numbers
pub const ENUM_COL: u16 = 0;

/// Column of the player names
pub const NAME_COL: u16 = 4;

/// Column of the total scores
pub const TOTAL_SCORE_COL: u16 = 24;

/// Column of the round scores
pub const ROUND_SCORE_COL: u16 = 32;

/// Width of the score board
pub const WIDTH: u16 = 40;

/// Scoreboard entry
///
/// The tag and connection status of a player are kept by the game; an entry
/// adds the player's state during a phase.
pub trait Entry {
    /// The player's round score
    ///
    /// Unless an entry keeps one, the round score is zero.
    fn round_score(&self) -> (r: u32)
        default_ensures
            r == 0,
    {
        0
    }

    /// Indication of the player's activity status
    ///
    /// Unless an entry keeps one, the player is active.
    fn active(&self) -> (r: bool)
        default_ensures
            r,
    {
        true
    }
}

/// Representation of an entry's state at a given point in time
#[derive(Clone, Debug)]
pub struct EntryDetails {
    pub name: String,
    pub total_score: u32,
    pub round_score: u32,
    pub connected: bool,
    pub active: bool,
}

/// The state of an entry, its name taken by its characters
pub open spec fn details_view(d: EntryDetails) -> (Seq<char>, u32, u32, bool, bool) {
    (d.name@, d.total_score, d.round_score, d.connected, d.active)
}

/// The state of an entry in a row, if any
pub open spec fn row_view(r: Option<EntryDetails>) -> Option<(Seq<char>, u32, u32, bool, bool)> {
    match r {
        Some(d) => Some(details_view(d)),
        None => None,
    }
}

/// Check whether two entry states are the same
fn same_details(a: &EntryDetails, b: &EntryDetails) -> (r: bool)
    ensures
        r == (details_view(*a) == details_view(*b)),
{
    a.name == b.name && a.total_score == b.total_score && a.round_score == b.round_score
        && a.connected == b.connected && a.active == b.active
}

/// Copy an entry state
fn copy_details(d: &EntryDetails) -> (r: EntryDetails)
    ensures
        details_view(r) == details_view(*d),
{
    EntryDetails {
        name: d.name.clone(),
        total_score: d.total_score,
        round_score: d.round_score,
        connected: d.connected,
        active: d.active,
    }
}

/// Representation of a score board
///
/// An instance of this type itself is useless unless it is placed in an `Area`.
#[derive(Copy, Clone, Debug)]
pub struct ScoreBoard {
    max_rows: u16,
    show_scores: bool,
}

impl ScoreBoard {
    #[verifier::type_invariant]
    spec fn inv(self) -> bool {
        self.max_rows < u16::MAX
    }

    /// The maximum number of entries shown
    pub closed spec fn spec_max_rows(&self) -> int {
        self.max_rows as int
    }

    /// Whether scores are shown
    pub closed spec fn spec_show_scores(&self) -> bool {
        self.show_scores
    }

    /// Create a new score board
    ///
    /// By default, the score board will include the scores.
    pub fn new(max_rows: u16) -> (r: Self)
        requires
            max_rows < u16::MAX,
        ensures
            r.spec_max_rows() == max_rows,
            r.spec_show_scores(),
    {
        ScoreBoard { max_rows, show_scores: true }
    }

    /// Change whether scores are shown
    pub fn show_scores(self, show_scores: bool) -> (r: Self)
        ensures
            r.spec_max_rows() == self.spec_max_rows(),
            r.spec_show_scores() == show_scores,
    {
        proof {
            use_type_invariant(&self);
        }
        ScoreBoard { show_scores, ..self }
    }
}

/// The heading of a score board placed at `base`
pub open spec fn heading(base: (u16, u16), show_scores: bool) -> Seq<CommandView> {
    seq![CommandView::SetPos(base.0, (base.1 + NAME_COL) as u16), CommandView::Text("Player"@)]
        + if show_scores {
        seq![
            CommandView::SetPos(base.0, (base.1 + TOTAL_SCORE_COL) as u16),
            CommandView::Text("Total"@),
            CommandView::SetPos(base.0, (base.1 + ROUND_SCORE_COL) as u16),
            CommandView::Text("Round"@),
        ]
    } else {
        Seq::empty()
    }
}

impl Entity for ScoreBoard {
    type PlacedEntity = BoardUpdater;

    closed spec fn spec_rows(&self) -> int {
        self.max_rows + 1
    }

    open spec fn spec_cols(&self) -> int {
        WIDTH as int
    }

    fn rows(&self) -> (r: u16) {
        proof {
            use_type_invariant(self);
        }
        self.max_rows + 1
    }

    fn cols(&self) -> (r: u16) {
        WIDTH
    }

    fn init(&self, pos: (u16, u16)) -> (r: PlacedInit)
        ensures
            r.spec_commands().map_values(|c: DrawCommand| command_view(c)) == heading(
                pos,
                self.spec_show_scores(),
            ),
    {
        let mut cmds: Vec<DrawCommand> = Vec::new();
        cmds.push(DrawCommand::SetPos(pos.0, pos.1 + NAME_COL));
        cmds.push(text("Player"));
        if self.show_scores {
            cmds.push(DrawCommand::SetPos(pos.0, pos.1 + TOTAL_SCORE_COL));
            cmds.push(text("Total"));
            cmds.push(DrawCommand::SetPos(pos.0, pos.1 + ROUND_SCORE_COL));
            cmds.push(text("Round"));
        }
        assert(cmds@.map_values(|c: DrawCommand| command_view(c)) =~= heading(
            pos,
            self.show_scores,
        ));
        PlacedInit::new(cmds)
    }

    fn place(self, pos: (u16, u16)) -> (r: BoardUpdater)
        ensures
            r.spec_base() == pos,
            r.spec_show_scores() == self.spec_show_scores(),
            r.spec_rows().len() == self.spec_max_rows(),
            forall|i: int| 0 <= i < r.spec_rows().len() ==> #[trigger] r.spec_rows()[i] is None,
    {
        proof {
            use_type_invariant(&self);
        }
        let mut rows: Vec<Option<EntryDetails>> = Vec::new();
        let mut i: u16 = 0;
        while i < self.max_rows
            invariant
                i <= self.max_rows,
                rows.len() == i,
                forall|j: int| 0 <= j < i ==> #[trigger] rows@[j] is None,
            decreases self.max_rows - i,
        {
            rows.push(None);
            i = i + 1;
        }
        BoardUpdater { rows, base_row: pos.0, base_col: pos.1, show_scores: self.show_scores }
    }
}

/// The text of an entry's number and name
pub open spec fn name_text(number: int, name: Seq<char>) -> Seq<char> {
    padded_left(decimal_chars(number as nat), (NAME_COL - ENUM_COL - 1) as int) + seq![' ']
        + padded_right(name, (TOTAL_SCORE_COL - NAME_COL) as int)
}

/// The text of an entry's total and round score
pub open spec fn score_text(total: u32, round: u32) -> Seq<char> {
    padded_left(decimal_chars(total as nat), (ROUND_SCORE_COL - TOTAL_SCORE_COL) as int)
        + padded_left(decimal_chars(round as nat), (WIDTH - ROUND_SCORE_COL) as int)
}

/// The intensity an entry is shown with
///
/// A highlighted entry is shown in bold, an entry of a player which is neither
/// active nor connected faint.
pub open spec fn entry_intensity(d: (Seq<char>, u32, u32, bool, bool), highlight: bool) -> Option<
    Intensity,
> {
    if highlight {
        Some(Intensity::Bold)
    } else if d.4 && d.3 {
        None
    } else {
        Some(Intensity::Faint)
    }
}

/// The commands drawing an entry in the given row of a score board
pub open spec fn entry_commands(
    base: (u16, u16),
    row: int,
    d: (Seq<char>, u32, u32, bool, bool),
    highlight: bool,
    show_scores: bool,
) -> Seq<CommandView> {
    seq![
        CommandView::SetPos((base.0 + row) as u16, base.1),
        CommandView::Format(SGR::Intensity(entry_intensity(d, highlight))),
        CommandView::Format(SGR::Strike(!d.3)),
        CommandView::Text(name_text(row, d.0)),
    ] + if show_scores {
        seq![CommandView::Text(score_text(d.1, d.2))]
    } else {
        Seq::empty()
    }
}

/// The commands clearing the given row of a score board
pub open spec fn blank_commands(base: (u16, u16), row: int) -> Seq<CommandView> {
    seq![CommandView::SetPos((base.0 + row) as u16, base.1)] + Seq::new(
        WIDTH as nat,
        |i: int| CommandView::Text(" "@),
    )
}

/// The state of a row after an update with the given entries
pub open spec fn updated_row(
    entries: Seq<(EntryDetails, bool)>,
    i: int,
) -> Option<(Seq<char>, u32, u32, bool, bool)> {
    if i < entries.len() {
        Some(details_view(entries[i].0))
    } else {
        None
    }
}

/// The commands updating the rows from index `i` of a score board
///
/// A row holding an entry is redrawn if the entry changed. A row no longer
/// holding an entry is cleared if it held one before.
pub open spec fn board_commands(
    base: (u16, u16),
    show_scores: bool,
    old_rows: Seq<Option<(Seq<char>, u32, u32, bool, bool)>>,
    entries: Seq<(EntryDetails, bool)>,
    i: int,
) -> Seq<CommandView>
    decreases old_rows.len() - i,
{
    if i < 0 || i >= old_rows.len() {
        Seq::empty()
    } else {
        let here = if i < entries.len() {
            if old_rows[i] != Some(details_view(entries[i].0)) {
                entry_commands(base, i + 1, details_view(entries[i].0), entries[i].1, show_scores)
            } else {
                Seq::empty()
            }
        } else if old_rows[i] is Some {
            blank_commands(base, i + 1)
        } else {
            Seq::empty()
        };
        here + board_commands(base, show_scores, old_rows, entries, i + 1)
    }
}

/// The screen shows the text from the given position on
pub open spec fn shows_text(cells: Map<(int, int), char>, at: (int, int), text: Seq<char>) -> bool {
    forall|k: int| 0 <= k < text.len() ==> #[trigger] cell(cells, (at.0, at.1 + k)) == text[k]
}

/// The screen shows the given row of a score board placed at `base`: an
/// entry's number and name, followed by its scores if they are shown, or
/// blanks across the board if the row holds no entry
pub open spec fn row_shown(
    cells: Map<(int, int), char>,
    base: (u16, u16),
    row: int,
    r: Option<(Seq<char>, u32, u32, bool, bool)>,
    show_scores: bool,
) -> bool {
    let at = (base.0 + row, base.1 as int);
    match r {
        Some(d) => {
            &&& shows_text(cells, at, name_text(row, d.0))
            &&& show_scores ==> shows_text(
                cells,
                (at.0, at.1 + name_text(row, d.0).len()),
                score_text(d.1, d.2),
            )
        },
        None => shows_text(cells, at, spaces(WIDTH as int)),
    }
}

/// The screen shows the rows of a score board placed at `base`
pub open spec fn board_shown(
    cells: Map<(int, int), char>,
    base: (u16, u16),
    rows: Seq<Option<(Seq<char>, u32, u32, bool, bool)>>,
    show_scores: bool,
) -> bool {
    forall|i: int| 0 <= i < rows.len() ==> #[trigger] row_shown(cells, base, i + 1, rows[i], show_scores)
}

/// The cells of the screen outside the rows `lo` to `hi` are the same
pub open spec fn same_outside(a: Map<(int, int), char>, b: Map<(int, int), char>, lo: int, hi: int) -> bool {
    forall|p: (int, int)| !(lo <= p.0 <= hi) ==> #[trigger] cell(a, p) == cell(b, p)
}

/// What a row shows depends on the cells of that row alone.
proof fn lemma_row_shown_same(
    a: Map<(int, int), char>,
    b: Map<(int, int), char>,
    base: (u16, u16),
    row: int,
    r: Option<(Seq<char>, u32, u32, bool, bool)>,
    show_scores: bool,
)
    requires
        forall|c: int| #[trigger] cell(a, (base.0 + row, c)) == cell(b, (base.0 + row, c)),
        row_shown(a, base, row, r, show_scores),
    ensures
        row_shown(b, base, row, r, show_scores),
{
    let at = (base.0 + row, base.1 as int);
    match r {
        Some(d) => {
            let name = name_text(row, d.0);
            assert forall|k: int| 0 <= k < name.len() implies #[trigger] cell(b, (at.0, at.1 + k)) == name[k] by {
                assert(cell(a, (at.0, at.1 + k)) == name[k]);
            }
            if show_scores {
                let score = score_text(d.1, d.2);
                let at2 = (at.0, at.1 + name.len());
                assert forall|k: int| 0 <= k < score.len() implies #[trigger] cell(b, (at2.0, at2.1 + k)) == score[k] by {
                    assert(cell(a, (at2.0, at2.1 + k)) == score[k]);
                }
            }
        },
        None => {
            let sp = spaces(WIDTH as int);
            assert forall|k: int| 0 <= k < sp.len() implies #[trigger] cell(b, (at.0, at.1 + k)) == sp[k] by {
                assert(cell(a, (at.0, at.1 + k)) == sp[k]);
            }
        },
    }
}

/// Drawing an entry in a row shows it there and leaves the other rows.
proof fn lemma_entry_shown(
    screen: (Map<(int, int), char>, (int, int)),
    base: (u16, u16),
    row: int,
    d: (Seq<char>, u32, u32, bool, bool),
    highlight: bool,
    show_scores: bool,
)
    requires
        1 <= row,
        base.0 + row < 0x10000,
    ensures
        row_shown(
            apply_commands(screen, entry_commands(base, row, d, highlight, show_scores)).0,
            base,
            row,
            Some(d),
            show_scores,
        ),
        same_outside(
            apply_commands(screen, entry_commands(base, row, d, highlight, show_scores)).0,
            screen.0,
            base.0 + row,
            base.0 + row,
        ),
{
    let cmds = entry_commands(base, row, d, highlight, show_scores);
    let r = base.0 + row;
    let at = (r, base.1 as int);
    let name = name_text(row, d.0);
    let s1 = apply_command(screen, cmds[0]);
    assert(s1 == (screen.0, at));
    lemma_apply_commands_first(screen, cmds);
    let c1 = cmds.drop_first();
    lemma_apply_commands_first(s1, c1);
    let c2 = c1.drop_first();
    lemma_apply_commands_first(s1, c2);
    let c3 = c2.drop_first();
    lemma_apply_commands_first(s1, c3);
    let c4 = c3.drop_first();
    assert(c3[0] == CommandView::Text(name));
    let s4 = (put_text(screen.0, at, name), (r, at.1 + name.len()));
    assert(apply_command(s1, c3[0]) == s4);
    lemma_put_text(screen.0, at, name);
    assert(shows_text(s4.0, at, name)) by {
        assert forall|k: int| 0 <= k < name.len() implies #[trigger] cell(s4.0, (at.0, at.1 + k)) == name[k] by {
            assert(cell(s4.0, (at.0, at.1 + k)) == name[(at.1 + k) - at.1]);
        }
    }
    if show_scores {
        let score = score_text(d.1, d.2);
        let at2 = (r, at.1 + name.len());
        assert(c4.len() == 1 && c4[0] == CommandView::Text(score));
        lemma_apply_commands_first(s4, c4);
        assert(c4.drop_first() =~= Seq::<CommandView>::empty());
        let s5 = apply_command(s4, c4[0]);
        assert(s5.0 == put_text(s4.0, at2, score));
        lemma_put_text(s4.0, at2, score);
        assert forall|k: int| 0 <= k < name.len() implies #[trigger] cell(s5.0, (at.0, at.1 + k)) == name[k] by {
            assert(cell(s5.0, (at.0, at.1 + k)) == cell(s4.0, (at.0, at.1 + k)));
        }
        assert forall|k: int| 0 <= k < score.len() implies #[trigger] cell(s5.0, (at2.0, at2.1 + k)) == score[k] by {
            assert(cell(s5.0, (at2.0, at2.1 + k)) == score[(at2.1 + k) - at2.1]);
        }
        assert forall|p: (int, int)| !(r <= p.0 <= r) implies #[trigger] cell(s5.0, p) == cell(screen.0, p) by {
            assert(cell(s5.0, p) == cell(s4.0, p));
        }
    } else {
        assert(c4 =~= Seq::<CommandView>::empty());
        assert forall|p: (int, int)| !(r <= p.0 <= r) implies #[trigger] cell(s4.0, p) == cell(screen.0, p) by {}
    }
}

/// The commands setting the position to the start of a row and putting `k`
/// single spaces, the beginning of those clearing it
pub open spec fn blank_prefix(base: (u16, u16), row: int, k: nat) -> Seq<CommandView> {
    seq![CommandView::SetPos((base.0 + row) as u16, base.1)] + Seq::new(k, |i: int| CommandView::Text(" "@))
}

/// Putting spaces from the start of a row blanks that many cells and leaves
/// the other rows.
proof fn lemma_blank_prefix(screen: (Map<(int, int), char>, (int, int)), base: (u16, u16), row: int, k: nat)
    requires
        1 <= row,
        base.0 + row < 0x10000,
    ensures
        apply_commands(screen, blank_prefix(base, row, k)).1 == (base.0 + row, base.1 + k),
        forall|p: (int, int)| #[trigger]
            cell(apply_commands(screen, blank_prefix(base, row, k)).0, p) == if p.0 == base.0 + row
                && base.1 <= p.1 < base.1 + k {
                ' '
            } else {
                cell(screen.0, p)
            },
    decreases k,
{
    let cmds = blank_prefix(base, row, k);
    if k == 0 {
        assert(cmds =~= seq![CommandView::SetPos((base.0 + row) as u16, base.1)]);
        assert(cmds.drop_last() =~= Seq::<CommandView>::empty());
        assert(apply_commands(screen, cmds.drop_last()) == screen);
        assert(apply_commands(screen, cmds).0 == screen.0);
    } else {
        lemma_blank_prefix(screen, base, row, (k - 1) as nat);
        assert(cmds.drop_last() =~= blank_prefix(base, row, (k - 1) as nat));
        assert(cmds.last() == CommandView::Text(" "@));
        let before = apply_commands(screen, blank_prefix(base, row, (k - 1) as nat));
        assert(" "@.len() == 1) by {
            reveal_strlit(" ");
        }
        assert(" "@[0] == ' ') by {
            reveal_strlit(" ");
        }
        lemma_put_text(before.0, before.1, " "@);
        let after = apply_commands(screen, cmds);
        assert(after == apply_command(before, CommandView::Text(" "@)));
        assert(after.0 == put_text(before.0, before.1, " "@));
        assert forall|p: (int, int)| #[trigger] cell(after.0, p) == if p.0 == base.0 + row && base.1 <= p.1
            < base.1 + k {
            ' '
        } else {
            cell(screen.0, p)
        } by {
            assert(cell(after.0, p) == if p.0 == before.1.0 && before.1.1 <= p.1 < before.1.1 + 1 {
                " "@[p.1 - before.1.1]
            } else {
                cell(before.0, p)
            });
        }
    }
}

/// Clearing a row blanks it across the board and leaves the other rows.
proof fn lemma_blank_shown(screen: (Map<(int, int), char>, (int, int)), base: (u16, u16), row: int)
    requires
        1 <= row,
        base.0 + row < 0x10000,
    ensures
        row_shown(apply_commands(screen, blank_commands(base, row)).0, base, row, None, true),
        row_shown(apply_commands(screen, blank_commands(base, row)).0, base, row, None, false),
        same_outside(apply_commands(screen, blank_commands(base, row)).0, screen.0, base.0 + row, base.0 + row),
{
    lemma_blank_prefix(screen, base, row, WIDTH as nat);
    assert(blank_prefix(base, row, WIDTH as nat) =~= blank_commands(base, row));
}

/// The screen shows what a score board holds
///
/// When the screen shows the rows of a score board placed at `base`, it shows
/// them, as `update` stores them, after the commands `update` returns for
/// the given entries: the entries in their rows, as far as there are rows,
/// numbered from one, and the rows left over blank. The other rows of the
/// screen stay as they were. A fresh board holds no entries, which a blank
/// screen shows.
pub proof fn lemma_board_update_shown(
    screen: (Map<(int, int), char>, (int, int)),
    base: (u16, u16),
    show_scores: bool,
    old_rows: Seq<Option<(Seq<char>, u32, u32, bool, bool)>>,
    entries: Seq<(EntryDetails, bool)>,
)
    requires
        fits_at(base, old_rows.len() + 1int, WIDTH as int),
        board_shown(screen.0, base, old_rows, show_scores),
    ensures
        board_shown(
            apply_commands(screen, board_commands(base, show_scores, old_rows, entries, 0)).0,
            base,
            Seq::new(old_rows.len(), |i: int| updated_row(entries, i)),
            show_scores,
        ),
        same_outside(
            apply_commands(screen, board_commands(base, show_scores, old_rows, entries, 0)).0,
            screen.0,
            base.0 + 1,
            base.0 + old_rows.len(),
        ),
{
    lemma_board_rows_shown(screen, base, show_scores, old_rows, entries, 0);
    let after = apply_commands(screen, board_commands(base, show_scores, old_rows, entries, 0)).0;
    let rows = Seq::new(old_rows.len(), |i: int| updated_row(entries, i));
    assert forall|i: int| 0 <= i < rows.len() implies #[trigger] row_shown(after, base, i + 1, rows[i], show_scores) by {
        assert(row_shown(after, base, i + 1, updated_row(entries, i), show_scores));
    }
}

/// Applying the commands updating the rows from index `i` on shows the
/// updated entries in these rows and leaves the other rows.
proof fn lemma_board_rows_shown(
    screen: (Map<(int, int), char>, (int, int)),
    base: (u16, u16),
    show_scores: bool,
    old_rows: Seq<Option<(Seq<char>, u32, u32, bool, bool)>>,
    entries: Seq<(EntryDetails, bool)>,
    i: int,
)
    requires
        0 <= i <= old_rows.len(),
        fits_at(base, old_rows.len() + 1int, WIDTH as int),
        forall|j: int| i <= j < old_rows.len() ==> #[trigger] row_shown(screen.0, base, j + 1, old_rows[j], show_scores),
    ensures
        forall|j: int|
            i <= j < old_rows.len() ==> #[trigger] row_shown(
                apply_commands(screen, board_commands(base, show_scores, old_rows, entries, i)).0,
                base,
                j + 1,
                updated_row(entries, j),
                show_scores,
            ),
        same_outside(
            apply_commands(screen, board_commands(base, show_scores, old_rows, entries, i)).0,
            screen.0,
            base.0 + i + 1,
            base.0 + old_rows.len(),
        ),
    decreases old_rows.len() - i,
{
    let cmds = board_commands(base, show_scores, old_rows, entries, i);
    if i == old_rows.len() {
        assert(cmds =~= Seq::<CommandView>::empty());
    } else {
        let row = i + 1;
        let here = if i < entries.len() {
            if old_rows[i] != Some(details_view(entries[i].0)) {
                entry_commands(base, row, details_view(entries[i].0), entries[i].1, show_scores)
            } else {
                Seq::empty()
            }
        } else if old_rows[i] is Some {
            blank_commands(base, row)
        } else {
            Seq::empty()
        };
        let rest = board_commands(base, show_scores, old_rows, entries, i + 1);
        assert(cmds == here + rest);
        lemma_apply_commands_join(screen, here, rest);
        let s1 = apply_commands(screen, here);
        if here.len() == 0 {
            assert(here =~= Seq::<CommandView>::empty());
            assert(s1 == screen);
        } else if i < entries.len() {
            lemma_entry_shown(screen, base, row, details_view(entries[i].0), entries[i].1, show_scores);
        } else {
            lemma_blank_shown(screen, base, row);
        }
        assert(row_shown(s1.0, base, row, updated_row(entries, i), show_scores));
        assert(same_outside(s1.0, screen.0, base.0 + row, base.0 + row));
        assert forall|j: int| i + 1 <= j < old_rows.len() implies #[trigger] row_shown(s1.0, base, j + 1, old_rows[j], show_scores) by {
            assert(row_shown(screen.0, base, j + 1, old_rows[j], show_scores));
            assert forall|c: int| #[trigger] cell(screen.0, (base.0 + (j + 1), c)) == cell(s1.0, (base.0 + (j + 1), c)) by {
                assert(!(base.0 + row <= base.0 + (j + 1) <= base.0 + row));
            }
            lemma_row_shown_same(screen.0, s1.0, base, j + 1, old_rows[j], show_scores);
        }
        lemma_board_rows_shown(s1, base, show_scores, old_rows, entries, i + 1);
        let s2 = apply_commands(s1, rest);
        assert forall|j: int| i <= j < old_rows.len() implies #[trigger] row_shown(s2.0, base, j + 1, updated_row(entries, j), show_scores) by {
            if j == i {
                assert forall|c: int| #[trigger] cell(s1.0, (base.0 + row, c)) == cell(s2.0, (base.0 + row, c)) by {
                    assert(!(base.0 + i + 2 <= base.0 + row <= base.0 + old_rows.len()));
                }
                lemma_row_shown_same(s1.0, s2.0, base, row, updated_row(entries, i), show_scores);
            }
        }
        assert forall|p: (int, int)| !(base.0 + i + 1 <= p.0 <= base.0 + old_rows.len()) implies #[trigger] cell(s2.0, p) == cell(screen.0, p) by {
            assert(cell(s2.0, p) == cell(s1.0, p));
            assert(cell(s1.0, p) == cell(screen.0, p));
        }
    }
}

/// Handle for updating a score board entity
pub struct BoardUpdater {
    rows: Vec<Option<EntryDetails>>,
    base_row: u16,
    base_col: u16,
    show_scores: bool,
}

impl BoardUpdater {
    #[verifier::type_invariant]
    spec fn inv(self) -> bool {
        fits_at((self.base_row, self.base_col), self.rows.len() + 1, WIDTH as int)
    }

    /// The topmost row and leftmost column of the score board
    pub closed spec fn spec_base(&self) -> (u16, u16) {
        (self.base_row, self.base_col)
    }

    /// Whether scores are shown
    pub closed spec fn spec_show_scores(&self) -> bool {
        self.show_scores
    }

    /// The entries shown in the rows of the board
    pub closed spec fn spec_rows(&self) -> Seq<Option<(Seq<char>, u32, u32, bool, bool)>> {
        self.rows@.map_values(|r: Option<EntryDetails>| row_view(r))
    }

    /// Update the score board
    ///
    /// The score board will be updated to reflect the given entries, each with
    /// an indication whether it is highlighted visually. Rows whose entry did
    /// not change are not redrawn. Entries beyond the board's rows are not
    /// shown. The function returns the draw commands updating the display.
    pub fn update(&mut self, entries: &Vec<(EntryDetails, bool)>) -> (r: Vec<DrawCommand>)
        ensures
            final(self).spec_base() == old(self).spec_base(),
            final(self).spec_show_scores() == old(self).spec_show_scores(),
            final(self).spec_rows().len() == old(self).spec_rows().len(),
            fits_at(old(self).spec_base(), old(self).spec_rows().len() + 1int, WIDTH as int),
            forall|i: int|
                0 <= i < final(self).spec_rows().len() ==> #[trigger] final(self).spec_rows()[i]
                    == updated_row(entries@, i),
            r@.map_values(|c: DrawCommand| command_view(c)) == board_commands(
                old(self).spec_base(),
                old(self).spec_show_scores(),
                old(self).spec_rows(),
                entries@,
                0,
            ),
    {
        proof {
            use_type_invariant(&*self);
        }
        let ghost old_rows = self.spec_rows();
        let ghost base = self.spec_base();
        let mut cmds: Vec<DrawCommand> = Vec::new();
        let mut rows: Vec<Option<EntryDetails>> = Vec::new();
        let mut i: usize = 0;
        while i < self.rows.len()
            invariant
                i <= self.rows.len(),
                old_rows == self.spec_rows(),
                base == self.spec_base(),
                fits_at((self.base_row, self.base_col), self.rows.len() + 1, WIDTH as int),
                rows.len() == i,
                forall|j: int|
                    0 <= j < i ==> #[trigger] row_view(rows@[j]) == updated_row(entries@, j),
                cmds@.map_values(|c: DrawCommand| command_view(c)) + board_commands(
                    base,
                    self.show_scores,
                    old_rows,
                    entries@,
                    i as int,
                ) == board_commands(base, self.show_scores, old_rows, entries@, 0),
            decreases self.rows.len() - i,
        {
            let ghost before = cmds@.map_values(|c: DrawCommand| command_view(c));
            let row = (i + 1) as u16;
            let ghost stored = old_rows[i as int];
            if i < entries.len() {
                let (details, highlight) = (&entries[i].0, entries[i].1);
                let changed = match &self.rows[i] {
                    Some(d) => !same_details(d, details),
                    None => true,
                };
                if changed {
                    let mut part = self.entry_commands(row, details, highlight);
                    cmds.append(&mut part);
                }
                rows.push(Some(copy_details(details)));
            } else {
                if self.rows[i].is_some() {
                    let mut part = self.blank_commands(row);
                    cmds.append(&mut part);
                }
                rows.push(None);
            }
            proof {
                assert(cmds@.map_values(|c: DrawCommand| command_view(c)) =~= before + (
                cmds@.map_values(|c: DrawCommand| command_view(c)).subrange(
                    before.len() as int,
                    cmds@.len() as int,
                )));
            }
            i = i + 1;
        }
        proof {
            assert(board_commands(base, self.show_scores, old_rows, entries@, i as int) =~= Seq::empty());
            assert(cmds@.map_values(|c: DrawCommand| command_view(c)) =~= board_commands(
                base,
                self.show_scores,
                old_rows,
                entries@,
                0,
            ));
        }
        self.rows = rows;
        proof {
            assert forall|j: int| 0 <= j < self.spec_rows().len() implies #[trigger] self.spec_rows()[j]
                == updated_row(entries@, j) by {}
        }
        cmds
    }

    /// The commands drawing an entry in the given row
    fn entry_commands(&self, row: u16, details: &EntryDetails, highlight: bool) -> (r: Vec<
        DrawCommand,
    >)
        requires
            1 <= row <= self.spec_rows().len(),
        ensures
            r@.map_values(|c: DrawCommand| command_view(c)) == entry_commands(
                self.spec_base(),
                row as int,
                details_view(*details),
                highlight,
                self.spec_show_scores(),
            ),
    {
        proof {
            use_type_invariant(self);
        }
        let intensity = if highlight {
            Some(Intensity::Bold)
        } else if details.active && details.connected {
            None
        } else {
            Some(Intensity::Faint)
        };
        let mut label = pad_left(decimal(row as u32).as_str(), (NAME_COL - ENUM_COL - 1) as usize);
        label.push(' ');
        let name = pad_right(details.name.as_str(), (TOTAL_SCORE_COL - NAME_COL) as usize);
        label.append(name.as_str());
        let mut r: Vec<DrawCommand> = Vec::new();
        r.push(DrawCommand::SetPos(self.base_row + row, self.base_col));
        r.push(DrawCommand::Format(SGR::Intensity(intensity)));
        r.push(DrawCommand::Format(SGR::Strike(!details.connected)));
        r.push(DrawCommand::Text(label));
        if self.show_scores {
            let mut scores = pad_left(
                decimal(details.total_score).as_str(),
                (ROUND_SCORE_COL - TOTAL_SCORE_COL) as usize,
            );
            let round = pad_left(decimal(details.round_score).as_str(), (WIDTH - ROUND_SCORE_COL) as usize);
            scores.append(round.as_str());
            assert(scores@ == score_text(details.total_score, details.round_score));
            r.push(DrawCommand::Text(scores));
        }
        assert(label@ == name_text(row as int, details.name@));
        assert(r@.map_values(|c: DrawCommand| command_view(c)) =~= entry_commands(
            self.spec_base(),
            row as int,
            details_view(*details),
            highlight,
            self.spec_show_scores(),
        ));
        r
    }

    /// The commands clearing the given row
    fn blank_commands(&self, row: u16) -> (r: Vec<DrawCommand>)
        requires
            1 <= row <= self.spec_rows().len(),
        ensures
            r@.map_values(|c: DrawCommand| command_view(c)) == blank_commands(
                self.spec_base(),
                row as int,
            ),
    {
        proof {
            use_type_invariant(self);
        }
        let mut r: Vec<DrawCommand> = Vec::new();
        r.push(DrawCommand::SetPos(self.base_row + row, self.base_col));
        let mut k: u16 = 0;
        while k < WIDTH
            invariant
                k <= WIDTH,
                r.len() == 1 + k,
                r@.map_values(|c: DrawCommand| command_view(c)) == seq![
                    CommandView::SetPos((self.base_row + row) as u16, self.base_col),
                ] + Seq::new(k as nat, |i: int| CommandView::Text(" "@)),
            decreases WIDTH - k,
        {
            let ghost before = r@.map_values(|c: DrawCommand| command_view(c));
            r.push(text(" "));
            assert(command_view(r@[r@.len() - 1]) == CommandView::Text(" "@));
            assert(r@.map_values(|c: DrawCommand| command_view(c)) =~= before.push(
                CommandView::Text(" "@),
            ));
            assert(Seq::new((k + 1) as nat, |i: int| CommandView::Text(" "@)) =~= Seq::new(
                k as nat,
                |i: int| CommandView::Text(" "@),
            ).push(CommandView::Text(" "@)));
            k = k + 1;
        }
        r
    }
}

} // verus!
