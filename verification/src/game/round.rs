//! Game logic of the round phase

use vstd::prelude::*;

use rand_pcg::Mcg128Xsl64;

use crate::field::moving_field::last_capsule_at;
use crate::field::static_field::{last_entry_at, spec_defeated};
use crate::field::tick::{collected_rows, rows_positions, unchanged_or_unbound};
use crate::field::moving_field::shifted_down;
use crate::field::tick::{
    eliminated_tile, is_supported, lemma_elimination_keeps_partnership,
    lemma_moving_consistent_at, lemma_settle_keeps_partnership, lemma_tick_keeps_partnership,
    moving_consistent, moving_partner, no_overlap,
    row_has_element, settle_closed, settle_transfer, static_consistent,
};
use crate::field::unsettle::{
    lemma_unsettle_keeps_partnership, unsettle_complete, unsettle_lowest, unsettle_sound, unsettle_takes_partners, unsettle_transfer,
    unsettle_elements, unsettled_at,
};
use crate::field::movement::{lemma_move_keeps_consistency, lemma_row_is_lowest, spec_targets, update_view};
use crate::field::{
    defeated, eliminate_elements, settle_elements, ControlledCapsule, Eliminated, Settled, MovingField,
    MovingRowIndex, Movement, RowOfFour, StaticField, TileContents, Update, Virus, CapsuleElement,
};
use crate::display::scores::Entry;
use crate::random::{random_colour, random_u32};
use crate::util::{
    PotentiallyColoured,
    in_field, pos_view, Colour, ColumnIndex, Direction, Position, RowIndex, FIELD_HEIGHT, FIELD_WIDTH,
};

verus! {

broadcast use crate::util::group_index_bounds;

/// The minimum number of rows, exceeded, for capsule elements to be sent to
/// other players
pub const MIN_ROWS_SEND: usize = 1;

/// The maximum number of capsule elements sent to a single player
pub const MAX_CAPSULE_RECEIVE: usize = 4;

/// Message type for events associated with a particular player
#[derive(Clone, Debug, PartialEq, Eq)]
pub enum Event {
    /// Capsules to be sent to the other players
    Capsules(Vec<Colour>),
    /// The player's score has changed
    Score(u32),
    /// The player was defeated
    Defeat,
}

/// Categorization of currently active capsule elements
#[derive(Copy, Clone)]
pub enum ActiveElements {
    /// A controlled capsule exists
    Controlled(ControlledCapsule),
    /// Some uncontrolled elements exist including and above this row
    Uncontrolled(MovingRowIndex),
}

impl ActiveElements {
    /// The lowest row containing active capsule elements
    pub open spec fn spec_lowest_row(&self) -> MovingRowIndex {
        match self {
            ActiveElements::Controlled(c) => c.spec_row(),
            ActiveElements::Uncontrolled(r) => *r,
        }
    }

    /// Retrieve the lowest row containing active capsule elements
    pub fn lowest_row(&self) -> (r: MovingRowIndex)
        ensures
            r == self.spec_lowest_row(),
    {
        match self {
            ActiveElements::Controlled(c) => c.row(),
            ActiveElements::Uncontrolled(r) => *r,
        }
    }

    /// Check whether the active elements are controlled
    pub fn is_controlled(&self) -> (r: bool)
        ensures
            r == self is Controlled,
    {
        match self {
            ActiveElements::Controlled(_) => true,
            ActiveElements::Uncontrolled(_) => false,
        }
    }
}

/// The lower of two optional rows: rows are numbered from the top
pub open spec fn spec_lower_row(a: Option<RowIndex>, b: Option<RowIndex>) -> Option<RowIndex> {
    match (a, b) {
        (Some(x), Some(y)) => if x@ >= y@ {
            Some(x)
        } else {
            Some(y)
        },
        (Some(x), None) => Some(x),
        (None, Some(y)) => Some(y),
        (None, None) => None,
    }
}

/// Determine the lower of two (optional) rows
///
/// If one row is `None`, the other is considered lower.
pub fn lower_row(a: Option<RowIndex>, b: Option<RowIndex>) -> (r: Option<RowIndex>)
    ensures
        r == spec_lower_row(a, b),
{
    match (a, b) {
        (Some(x), Some(y)) => if x.index() >= y.index() {
            Some(x)
        } else {
            Some(y)
        },
        (Some(x), None) => Some(x),
        (None, Some(y)) => Some(y),
        (None, None) => None,
    }
}

/// Whether any of the viruses lies at one of the given coordinates
pub open spec fn hits_virus(viruses: Seq<(Position, Colour)>, positions: Seq<(int, int)>) -> bool {
    exists|i: int| 0 <= i < viruses.len() && positions.contains(pos_view(#[trigger] viruses[i].0))
}

/// The viruses remaining after eliminating the given coordinates, in order
pub open spec fn remaining_viruses(
    viruses: Seq<(Position, Colour)>,
    positions: Seq<(int, int)>,
) -> Seq<(Position, Colour)>
    decreases viruses.len(),
{
    if viruses.len() == 0 {
        viruses
    } else {
        let rest = remaining_viruses(viruses.drop_last(), positions);
        if positions.contains(pos_view(viruses.last().0)) {
            rest
        } else {
            rest.push(viruses.last())
        }
    }
}

/// The colours of eliminated rows, in order
pub open spec fn row_colours(rows: Seq<(Colour, RowOfFour)>) -> Seq<Colour> {
    rows.map_values(|r: (Colour, RowOfFour)| r.0)
}

/// `events` are the events emerging from a tick, in order
///
/// The score, the number of viruses remaining, is reported if one of the
/// eliminated rows held a virus. Capsule elements in the colours of the rows
/// eliminated during a chain of eliminations are sent, once the chain ended,
/// if there were more than one: `sent` are these colours, or none while the
/// chain goes on. A defeat is reported if the top row is occupied afterwards.
pub open spec fn elimination_events(
    events: Seq<Event>,
    viruses: Seq<(Position, Colour)>,
    rows: Seq<(Colour, RowOfFour)>,
    sent: Seq<Colour>,
    defeat: bool,
) -> bool {
    let positions = rows_positions(rows);
    let score = hits_virus(viruses, positions);
    let capsules = sent.len() > MIN_ROWS_SEND;
    let n_score: int = if score { 1 } else { 0 };
    let n_capsules: int = if capsules { 1 } else { 0 };
    let n_defeat: int = if defeat { 1 } else { 0 };
    &&& events.len() == n_score + n_capsules + n_defeat
    &&& score ==> events[0] == Event::Score(remaining_viruses(viruses, positions).len() as u32)
    &&& capsules ==> (events[n_score] matches Event::Capsules(v) && v@ == sent)
    &&& defeat ==> events[n_score + n_capsules] == Event::Defeat
}

/// The settling step of a tick, as `settle_elements` performs it
///
/// The elements at `settled` moved from `m0` to `s0`, giving `m1` and `s1`:
/// the least set closed under the settling rules for the rows down to `low`.
/// `lowest` is the lowest row down to `low` holding an element left, if any.
pub open spec fn settle_step(
    m0: MovingField,
    s0: StaticField,
    low: int,
    settled: Seq<(int, int)>,
    lowest: Option<RowIndex>,
    m1: MovingField,
    s1: StaticField,
) -> bool {
    &&& settled.no_duplicates()
    &&& forall|p: (int, int)| #[trigger] settled.contains(p) ==> in_field(p) && m0.tile(p) is Some
    &&& forall|t: Set<(int, int)>| #[trigger]
        settle_closed(&m0, &s0, low, t) ==> settled.to_set().subset_of(t)
    &&& forall|p: (int, int)|
        in_field(p) && p.0 <= low && #[trigger] m0.tile(p) is Some && is_supported(
            &s0,
            settled.to_set(),
            p,
        ) ==> settled.contains(p)
    &&& moving_consistent(&m0) ==> settle_closed(&m0, &s0, low, settled.to_set())
    &&& settle_transfer(m0, s0, settled, m1, s1)
    &&& forall|i: MovingRowIndex| #[trigger] m1.spec_row_of(i) == m0.spec_row_of(i)
    &&& match lowest {
        Some(l) => {
            &&& l@ <= low
            &&& row_has_element(&m1, l@)
            &&& forall|row: int| l@ < row <= low ==> !#[trigger] row_has_element(&m1, row)
        },
        None => forall|row: int| 0 <= row <= low ==> !#[trigger] row_has_element(&m1, row),
    }
}

/// The elimination step of a tick, as `eliminate_elements` performs it
///
/// `rows` are the rows of four in `s1` through the settled positions, and
/// `s2` is `s1` with their tiles freed and their partners unbound.
pub open spec fn eliminate_step(
    s1: StaticField,
    settled: Seq<(int, int)>,
    rows: Seq<(Colour, RowOfFour)>,
    s2: StaticField,
) -> bool {
    &&& collected_rows(&s1, settled, rows)
    &&& forall|q: (int, int)| #[trigger]
        rows_positions(rows).contains(q) ==> s2.tile(q) == TileContents::Empty
    &&& forall|q: (int, int)|
        !rows_positions(rows).contains(q) ==> unchanged_or_unbound(s1.tile(q), #[trigger] s2.tile(q))
    &&& static_consistent(&s1) ==> forall|q: (int, int)| #[trigger]
        s2.tile(q) == eliminated_tile(&s1, rows_positions(rows).to_set(), q)
}

/// The unsettling step of a tick, as `unsettle_elements` performs it
///
/// The elements no longer held after freeing the tiles of `rows` moved from
/// `s2` to `m1`, giving `s3` and `m3`; `lowest` is the lowest row holding one
/// of them, if any.
pub open spec fn unsettle_step(
    m1: MovingField,
    s2: StaticField,
    rows: Seq<(Colour, RowOfFour)>,
    lowest: Option<RowIndex>,
    m3: MovingField,
    s3: StaticField,
) -> bool {
    &&& unsettle_transfer(&m1, &s2, &m3, &s3)
    &&& unsettle_takes_partners(&s2, &s3)
    &&& unsettle_sound(&s2, &s3)
    &&& unsettle_complete(&s2, &s3, rows_positions(rows))
    &&& unsettle_lowest(&s2, &s3, lowest)
    &&& forall|i: MovingRowIndex| #[trigger] m3.spec_row_of(i) == m1.spec_row_of(i)
}

/// A tick took the fields from `m0` and `s0` to `m` and `s`
///
/// Elements settle down to row `low` (`m1`, `s1`). If any did, the rows of
/// four through them are eliminated (`s2`) and the elements no longer held
/// unsettle (`m3` and `s`); otherwise nothing else changes. No element moves
/// exactly if no row down to the lowest row settled or unsettled holds one;
/// otherwise the moving elements move down one row.
pub open spec fn tick_steps(
    m0: MovingField,
    s0: StaticField,
    low: int,
    settled: Seq<(int, int)>,
    rows: Seq<(Colour, RowOfFour)>,
    needs_spawn: bool,
    m: MovingField,
    s: StaticField,
    m1: MovingField,
    s1: StaticField,
    lowest1: Option<RowIndex>,
    s2: StaticField,
    m3: MovingField,
    unsettled: Option<RowIndex>,
) -> bool {
    &&& settle_step(m0, s0, low, settled, lowest1, m1, s1)
    &&& if settled.len() == 0 {
        &&& rows.len() == 0
        &&& s2 == s1
        &&& m3 == m1
        &&& s == s1
        &&& unsettled is None
    } else {
        &&& eliminate_step(s1, settled, rows, s2)
        &&& unsettle_step(m1, s2, rows, unsettled, m3, s)
    }
    &&& needs_spawn == (spec_lower_row(unsettled, lowest1) is None)
    &&& if needs_spawn {
        m == m3
    } else {
        shifted_down(&m3, &m)
    }
}

/// A tick took the actor from `before` to `after`, settling the elements at
/// `settled`, eliminating `rows` and moving the elements down unless
/// `needs_spawn`: the fields are those `tick_steps` relates
pub open spec fn tick_result(
    before: Actor,
    after: Actor,
    settled: Seq<(int, int)>,
    rows: Seq<(Colour, RowOfFour)>,
    needs_spawn: bool,
) -> bool {
    exists|
        m1: MovingField,
        s1: StaticField,
        lowest1: Option<RowIndex>,
        s2: StaticField,
        m3: MovingField,
        unsettled: Option<RowIndex>,
    |
        #[trigger] tick_steps(
            before.spec_moving(),
            before.spec_static(),
            before.spec_moving().spec_row_of(before.spec_active().spec_lowest_row()),
            settled,
            rows,
            needs_spawn,
            after.spec_moving(),
            after.spec_static(),
            m1,
            s1,
            lowest1,
            s2,
            m3,
            unsettled,
        )
}

/// Spawning the received capsule elements took the actor from `before` to
/// `after` with the updates `r`: the elements are in the top row at their
/// columns, the later one winning, and the active row is the top row
pub open spec fn spawned_received(
    before: Actor,
    after: Actor,
    capsules: Seq<(ColumnIndex, Colour)>,
    r: Seq<Update>,
) -> bool {
    &&& forall|p: (int, int)|
        in_field(p) && p.0 != 0 ==> #[trigger] after.spec_moving().tile(p) == before.spec_moving().tile(p)
    &&& forall|c: int|
        0 <= c < FIELD_WIDTH ==> #[trigger] after.spec_moving().tile((0, c)) == match last_capsule_at(
            capsules,
            c,
        ) {
            Some(col) => Some(CapsuleElement::single_spec(col)),
            None => before.spec_moving().tile((0, c)),
        }
    &&& after.spec_active() matches ActiveElements::Uncontrolled(row)
        && after.spec_moving().spec_row_of(row) == 0
    &&& r.len() == capsules.len()
    &&& forall|i: int|
        #![trigger r[i]]
        0 <= i < r.len() ==> update_view(r[i]) == ((0int, capsules[i].0@), Some(capsules[i].1))
    &&& after.spec_static() == before.spec_static()
    &&& after.spec_viruses() == before.spec_viruses()
    &&& after.spec_next_colours() == before.spec_next_colours()
}

/// Spawning a controlled capsule took the actor from `before` to `after` with
/// the updates `r`: the capsule in the colours chosen before is in the middle
/// of the top row, and `next` are the colours chosen for the next capsule
pub open spec fn spawned_controlled(before: Actor, after: Actor, r: Seq<Update>, next: [Colour; 2]) -> bool {
    &&& after.spec_active() matches ActiveElements::Controlled(c) && {
        &&& after.spec_moving().spec_row_of(c.spec_row()) == 0
        &&& c.spec_column() == 3
    }
    &&& forall|p: (int, int)| #[trigger]
        after.spec_moving().tile(p) == if p == (0int, 3int) {
            Some(CapsuleElement::new_spec(before.spec_next_colours()[0], Some(Direction::Right)))
        } else if p == (0int, 4int) {
            Some(CapsuleElement::new_spec(before.spec_next_colours()[1], Some(Direction::Left)))
        } else {
            before.spec_moving().tile(p)
        }
    &&& r.len() == 2
    &&& update_view(r[0]) == ((0int, 3int), Some(before.spec_next_colours()[0]))
    &&& update_view(r[1]) == ((0int, 4int), Some(before.spec_next_colours()[1]))
    &&& next == after.spec_next_colours()
    &&& after.spec_static() == before.spec_static()
    &&& after.spec_viruses() == before.spec_viruses()
}

/// What a tick brought about
pub struct TickOutcome {
    /// Events to send, in order
    pub events: Vec<Event>,
    /// Updates of the displayed field, to apply in order
    pub updates: Vec<Update>,
    /// No moving element is left: new capsules need to be spawned
    pub needs_spawn: bool,
    /// The positions of the elements settled during the tick
    pub settled: Settled,
    /// The rows eliminated during the tick
    pub eliminated: Eliminated,
}

/// Every element of the field of moving elements hangs above a free tile of
/// the static field
pub open spec fn hanging(s: &StaticField, m: &MovingField) -> bool {
    forall|p: (int, int)|
        #[trigger] m.tile(p) is Some ==> p.0 < FIELD_HEIGHT - 1 && !s.tile((p.0 + 1, p.1)).spec_is_occupied()
}

/// The elements of the field of moving elements lie in rows down to `row`,
/// and `row` holds one of them unless there are none
pub open spec fn rows_down_to(m: &MovingField, row: int) -> bool {
    &&& forall|p: (int, int)| #[trigger] m.tile(p) is Some ==> p.0 <= row
    &&& (exists|p: (int, int)| #[trigger] m.tile(p) is Some) ==> row_has_element(m, row)
}

/// The elements of the capsule are the only moving elements
pub open spec fn only_capsule(c: ControlledCapsule, m: &MovingField) -> bool {
    forall|p: (int, int)| #[trigger] m.tile(p) is Some ==> p == c.anchor(m) || p == c.partner(m)
}

/// Settling keeps the fields consistent and leaves only hanging elements in
/// the rows settled.
proof fn lemma_settle_hanging(
    m0: MovingField,
    s0: StaticField,
    low: int,
    settled: Seq<(int, int)>,
    m1: MovingField,
    s1: StaticField,
)
    requires
        moving_consistent(&m0),
        static_consistent(&s0),
        no_overlap(&s0, &m0),
        forall|p: (int, int)| #[trigger] m0.tile(p) is Some ==> p.0 <= low,
        forall|p: (int, int)| #[trigger] settled.contains(p) ==> in_field(p) && m0.tile(p) is Some,
        settle_closed(&m0, &s0, low, settled.to_set()),
        settle_transfer(m0, s0, settled, m1, s1),
    ensures
        moving_consistent(&m1),
        static_consistent(&s1),
        no_overlap(&s1, &m1),
        hanging(&s1, &m1),
{
    broadcast use MovingField::lemma_tile_outside;

    lemma_settle_keeps_partnership(m0, s0, low, settled, m1, s1);
    assert forall|p: (int, int)| #[trigger] m1.tile(p) is Some implies p.0 < FIELD_HEIGHT - 1
        && !s1.tile((p.0 + 1, p.1)).spec_is_occupied() by {
        assert(!settled.contains(p));
        assert(m0.tile(p) is Some);
        assert(!settled.to_set().contains(p));
        assert(!is_supported(&s0, settled.to_set(), p));
        assert(!settled.contains((p.0 + 1, p.1)));
        assert(s1.tile((p.0 + 1, p.1)) == s0.tile((p.0 + 1, p.1)));
    }
}

/// Eliminating tiles and unsettling elements keeps the fields consistent and
/// all moving elements hanging.
proof fn lemma_clear_hanging(
    m1: MovingField,
    s1: StaticField,
    e: Set<(int, int)>,
    s2: StaticField,
    m3: MovingField,
    s3: StaticField,
)
    requires
        moving_consistent(&m1),
        static_consistent(&s1),
        no_overlap(&s1, &m1),
        hanging(&s1, &m1),
        forall|q: (int, int)| #[trigger] s2.tile(q) == eliminated_tile(&s1, e, q),
        unsettle_transfer(&m1, &s2, &m3, &s3),
        unsettle_takes_partners(&s2, &s3),
        unsettle_sound(&s2, &s3),
    ensures
        moving_consistent(&m3),
        static_consistent(&s3),
        no_overlap(&s3, &m3),
        hanging(&s3, &m3),
{
    lemma_elimination_keeps_partnership(s1, e, s2);
    assert forall|p: (int, int)| #[trigger] m1.tile(p) is Some implies !s2.tile(p).spec_is_occupied() by {
        assert(s2.tile(p) == eliminated_tile(&s1, e, p));
    }
    lemma_unsettle_keeps_partnership(m1, s2, m3, s3);
    assert forall|p: (int, int)| #[trigger] m3.tile(p) is Some implies p.0 < FIELD_HEIGHT - 1
        && !s3.tile((p.0 + 1, p.1)).spec_is_occupied() by {
        let q = (p.0 + 1, p.1);
        assert(m3.tile(p) == m1.tile(p) || unsettled_at(&s2, &s3, p));
        if !unsettled_at(&s2, &s3, p) {
            assert(s2.tile(q) == eliminated_tile(&s1, e, q));
            assert(s3.tile(q) == s2.tile(q) || unsettled_at(&s2, &s3, q));
        }
    }
}

/// Moving hanging elements down one row keeps the fields consistent and
/// moves the rows holding elements down by one.
proof fn lemma_tick_hanging(s: StaticField, m: MovingField, m2: MovingField, row: int)
    requires
        moving_consistent(&m),
        hanging(&s, &m),
        rows_down_to(&m, row),
        0 <= row < FIELD_HEIGHT - 1,
        shifted_down(&m, &m2),
    ensures
        moving_consistent(&m2),
        no_overlap(&s, &m2),
        rows_down_to(&m2, row + 1),
        forall|p: (int, int)|
            in_field(p) && p.0 != 0 ==> #[trigger] m2.tile(p) == m.tile((p.0 - 1, p.1)),
        forall|p: (int, int)| in_field(p) && p.0 == 0 ==> #[trigger] m2.tile(p) is None,
{
    broadcast use MovingField::lemma_tile_outside;

    assert forall|c: int| 0 <= c < FIELD_WIDTH implies #[trigger] m.tile((FIELD_HEIGHT - 1, c))
        is None by {
        if m.tile((FIELD_HEIGHT - 1, c)) is Some {
            assert(hanging(&s, &m));
        }
    }
    lemma_tick_keeps_partnership(m, m2);
    assert forall|p: (int, int)| in_field(p) && p.0 == 0 implies #[trigger] m2.tile(p) is None by {
        assert(m2.tile(p) == m.tile((FIELD_HEIGHT - 1, p.1)));
    }
    assert forall|p: (int, int)| in_field(p) && p.0 != 0 implies #[trigger] m2.tile(p) == m.tile(
        (p.0 - 1, p.1),
    ) by {
        assert(m2.tile(p) == m.tile(((p.0 + FIELD_HEIGHT - 1) % (FIELD_HEIGHT as int), p.1)));
    }
    assert forall|p: (int, int)| #[trigger] m2.tile(p) is Some implies !s.tile(p).spec_is_occupied()
        && p.0 <= row + 1 by {
        assert(in_field(p));
        if p.0 == 0 {
            assert(m2.tile(p) == m.tile((FIELD_HEIGHT - 1, p.1)));
        }
        assert(m2.tile(p) == m.tile((p.0 - 1, p.1)));
    }
    if exists|p: (int, int)| #[trigger] m2.tile(p) is Some {
        let p = choose|p: (int, int)| #[trigger] m2.tile(p) is Some;
        assert(m.tile((p.0 - 1, p.1)) is Some);
        let c = choose|c: int| 0 <= c < FIELD_WIDTH && #[trigger] m.tile((row, c)) is Some;
        assert(m2.tile((row + 1, c)) == m.tile((row, c)));
    }
}

/// Moving the only moving capsule keeps it complete and the only moving
/// capsule, its elements in rows down to its anchor's, and the fields
/// consistent.
///
/// Over any sequence of moves of a capsule alone in the field of moving
/// elements, partners thus keep referring to each other and no tile is
/// occupied in both fields.
pub proof fn lemma_move_keeps_wf(
    before: ControlledCapsule,
    after: ControlledCapsule,
    m0: MovingField,
    m1: MovingField,
    s: StaticField,
    movement: Movement,
    r: Option<[Update; 4]>,
)
    requires
        moving_consistent(&m0),
        no_overlap(&s, &m0),
        before.is_complete(&m0),
        only_capsule(before, &m0),
        ControlledCapsule::move_outcome(before, after, m0, m1, &s, movement, r),
    ensures
        moving_consistent(&m1),
        no_overlap(&s, &m1),
        after.is_complete(&m1),
        only_capsule(after, &m1),
        rows_down_to(&m1, m1.spec_row_of(after.spec_row())),
{
    broadcast use MovingField::lemma_tile_outside;

    let a = before.anchor(&m0);
    let b = before.partner(&m0);
    lemma_move_keeps_consistency(before, after, m0, m1, s, movement, r);
    if r is Some {
        let tt = spec_targets(movement, a, b)->0;
        let x = after.anchor(&m1);
        let y = after.partner(&m1);
        assert(x != y);
        assert forall|p: (int, int)| #[trigger] m1.tile(p) is Some implies p == x || p == y by {
            assert(p == tt.0 || p == tt.1);
            assert(x == tt.0 || x == tt.1);
            assert(y == tt.0 || y == tt.1);
        }
    }
    let x = after.anchor(&m1);
    assert(x.0 == m1.spec_row_of(after.spec_row()));
    assert forall|p: (int, int)| #[trigger] m1.tile(p) is Some implies p.0 <= x.0 by {
        assert(p == x || p == after.partner(&m1));
    }
    assert(m1.tile((x.0, x.1)) is Some);
}

/// Before the downward movement of a tick: the fields are consistent, every
/// moving element hangs, and the elements lie in rows down to the active
/// row, `lowest`, which holds one of them, or there are none
pub open spec fn ready_to_move(
    s: &StaticField,
    m: &MovingField,
    active: ActiveElements,
    lowest: Option<RowIndex>,
) -> bool {
    &&& moving_consistent(m)
    &&& static_consistent(s)
    &&& no_overlap(s, m)
    &&& hanging(s, m)
    &&& match lowest {
        Some(l) => {
            &&& rows_down_to(m, l@)
            &&& row_has_element(m, l@)
            &&& m.spec_row_of(active.spec_lowest_row()) == l@
            &&& (active matches ActiveElements::Controlled(c) ==> (c.spec_intact(m) ==> c.is_complete(
                m,
            ) && only_capsule(c, m)))
        },
        None => forall|p: (int, int)| #[trigger] m.tile(p) is None,
    }
}

/// The rows holding elements after settling: down to the lowest row left
/// holding one, if any
proof fn lemma_rows_after_settle(
    m0: MovingField,
    low: int,
    m1: MovingField,
    lowest: Option<RowIndex>,
)
    requires
        forall|p: (int, int)| #[trigger] m0.tile(p) is Some ==> p.0 <= low,
        forall|p: (int, int)| #[trigger] m1.tile(p) is Some ==> m0.tile(p) is Some,
        match lowest {
            Some(l) => {
                &&& l@ <= low
                &&& row_has_element(&m1, l@)
                &&& forall|row: int| l@ < row <= low ==> !#[trigger] row_has_element(&m1, row)
            },
            None => forall|row: int| 0 <= row <= low ==> !#[trigger] row_has_element(&m1, row),
        },
    ensures
        match lowest {
            Some(l) => rows_down_to(&m1, l@) && row_has_element(&m1, l@),
            None => forall|p: (int, int)| #[trigger] m1.tile(p) is None,
        },
{
    broadcast use MovingField::lemma_tile_outside;

    assert forall|p: (int, int)| #[trigger] m1.tile(p) is Some implies match lowest {
        Some(l) => p.0 <= l@,
        None => false,
    } by {
        assert(in_field(p));
        assert(m0.tile(p) is Some);
        assert(row_has_element(&m1, p.0));
    }
}

/// The rows holding elements after unsettling: down to the lower of the
/// lowest row holding a settled element and that holding an unsettled one
proof fn lemma_rows_after_unsettle(
    m1: MovingField,
    lowest1: Option<RowIndex>,
    s2: StaticField,
    m3: MovingField,
    s3: StaticField,
    unsettled: Option<RowIndex>,
)
    requires
        match lowest1 {
            Some(l) => rows_down_to(&m1, l@) && row_has_element(&m1, l@),
            None => forall|p: (int, int)| #[trigger] m1.tile(p) is None,
        },
        unsettle_transfer(&m1, &s2, &m3, &s3),
        unsettle_lowest(&s2, &s3, unsettled),
        unsettle_sound(&s2, &s3),
    ensures
        match spec_lower_row(unsettled, lowest1) {
            Some(l) => rows_down_to(&m3, l@) && row_has_element(&m3, l@),
            None => forall|p: (int, int)| #[trigger] m3.tile(p) is None,
        },
{
    assert forall|p: (int, int)| #[trigger] m3.tile(p) is Some implies match spec_lower_row(unsettled, lowest1) {
        Some(l) => p.0 <= l@,
        None => false,
    } by {
        assert(m3.tile(p) == m1.tile(p) || unsettled_at(&s2, &s3, p));
    }
    match spec_lower_row(unsettled, lowest1) {
        Some(l) => {
            if unsettled == Some(l) {
                let c = choose|c: int| #[trigger] unsettled_at(&s2, &s3, (l@, c));
                assert(in_field((l@, c)));
                assert(m3.tile((l@, c)) is Some);
            } else {
                let c = choose|c: int| 0 <= c < FIELD_WIDTH && #[trigger] m1.tile((l@, c)) is Some;
                assert(m3.tile((l@, c)) == m1.tile((l@, c)) || unsettled_at(&s2, &s3, (l@, c)));
            }
        },
        None => {},
    }
}

/// Moving an intact controlled capsule, the only moving capsule, down one
/// row keeps it complete and the only moving capsule.
pub proof fn lemma_capsule_shift(c: ControlledCapsule, m: MovingField, m2: MovingField)
    requires
        moving_consistent(&m),
        c.spec_intact(&m) ==> c.is_complete(&m) && only_capsule(c, &m),
        0 <= m.spec_row_of(c.spec_row()) < FIELD_HEIGHT - 1,
        shifted_down(&m, &m2),
        forall|p: (int, int)| in_field(p) && p.0 == 0 ==> #[trigger] m2.tile(p) is None,
        forall|p: (int, int)|
            in_field(p) && p.0 != 0 ==> #[trigger] m2.tile(p) == m.tile((p.0 - 1, p.1)),
    ensures
        c.spec_intact(&m2) ==> c.is_complete(&m2) && only_capsule(c, &m2),
{
    broadcast use MovingField::lemma_tile_outside;

    let a = c.anchor(&m);
    let a2 = c.anchor(&m2);
    assert(m2.spec_row_of(c.spec_row()) == (m.spec_row_of(c.spec_row()) + 1) % (FIELD_HEIGHT as int));
    assert(a2 == (a.0 + 1, a.1));
    assert(m2.tile(a2) == m.tile(a));
    if c.spec_intact(&m2) {
        assert(moving_partner(&m, a) is Some);
        lemma_moving_consistent_at(&m, a);
        assert(c.spec_intact(&m));
        let b = c.partner(&m);
        let b2 = c.partner(&m2);
        assert(b2 == (b.0 + 1, b.1));
        assert(m2.tile(b2) == m.tile(b));
        assert forall|p: (int, int)| #[trigger] m2.tile(p) is Some implies p == a2 || p == b2 by {
            assert(in_field(p));
            assert(p.0 != 0);
            assert(m.tile((p.0 - 1, p.1)) is Some);
        }
    }
}

/// The capsule `c` is alone in the field of moving elements `m`: complete,
/// the only moving capsule, and the fields consistent
pub open spec fn capsule_alone(c: ControlledCapsule, m: MovingField, s: StaticField) -> bool {
    &&& moving_consistent(&m)
    &&& no_overlap(&s, &m)
    &&& c.is_complete(&m)
    &&& only_capsule(c, &m)
}

/// One step of a capsule alone in the field of moving elements: a move, or
/// a tick moving it down one row while it hangs above free tiles
pub open spec fn capsule_step(
    c1: ControlledCapsule,
    c2: ControlledCapsule,
    m1: MovingField,
    m2: MovingField,
    s: StaticField,
) -> bool {
    ||| exists|movement: Movement, r: Option<[Update; 4]>| #[trigger]
        ControlledCapsule::move_outcome(c1, c2, m1, m2, &s, movement, r)
    ||| c2 == c1 && hanging(&s, &m1) && shifted_down(&m1, &m2)
}

/// A capsule alone lies in the rows down to the row its row index maps to,
/// which holds its anchor.
proof fn lemma_alone_rows(c: ControlledCapsule, m: MovingField, s: StaticField)
    requires
        capsule_alone(c, m, s),
    ensures
        rows_down_to(&m, m.spec_row_of(c.spec_row())),
        row_has_element(&m, m.spec_row_of(c.spec_row())),
{
    broadcast use MovingField::lemma_tile_outside;

    lemma_row_is_lowest(c, m);
    let a = c.anchor(&m);
    assert(m.tile(a) is Some);
    assert(in_field(a));
    assert(m.tile((a.0, a.1)) is Some);
    assert forall|p: (int, int)| #[trigger] m.tile(p) is Some implies p.0 <= a.0 by {
        assert(p == a || p == c.partner(&m));
    }
}

/// A tick moving a capsule alone, hanging above free tiles, down one row
/// keeps it alone.
proof fn lemma_capsule_tick(c: ControlledCapsule, m1: MovingField, m2: MovingField, s: StaticField)
    requires
        capsule_alone(c, m1, s),
        hanging(&s, &m1),
        shifted_down(&m1, &m2),
    ensures
        capsule_alone(c, m2, s),
{
    broadcast use MovingField::lemma_tile_outside;

    lemma_alone_rows(c, m1, s);
    let a = c.anchor(&m1);
    let row = a.0;
    assert(m1.tile(a) is Some);
    assert(row < FIELD_HEIGHT - 1);
    lemma_tick_hanging(s, m1, m2, row);
    let a2 = c.anchor(&m2);
    assert(m2.spec_row_of(c.spec_row()) == row + 1);
    assert(a2 == (a.0 + 1, a.1));
    assert(m2.tile(a2) == m1.tile(a));
    lemma_row_is_lowest(c, m1);
    let b = c.partner(&m1);
    assert(c.partner(&m2) == (b.0 + 1, b.1));
    assert(in_field(b)) by {
        assert(m1.tile(b) is Some);
    }
    assert(c.spec_intact(&m2));
    lemma_capsule_shift(c, m1, m2);
}

/// A controlled capsule keeps its shape over moves and ticks
///
/// Starting alone in the field of moving elements, a capsule stays alone over
/// any sequence of moves and of ticks moving it down while it hangs above
/// free tiles: complete, its elements bound to each other, no tile occupied
/// in both fields, and its row index mapping to the lowest row holding one
/// of its elements, which holds its anchor.
pub proof fn lemma_capsule_steps(caps: Seq<ControlledCapsule>, fields: Seq<MovingField>, s: StaticField)
    requires
        caps.len() == fields.len(),
        caps.len() > 0,
        capsule_alone(caps[0], fields[0], s),
        forall|i: int|
            0 <= i < caps.len() - 1 ==> #[trigger] capsule_step(
                caps[i],
                caps[i + 1],
                fields[i],
                fields[i + 1],
                s,
            ),
    ensures
        forall|i: int|
            0 <= i < caps.len() ==> {
                &&& #[trigger] capsule_alone(caps[i], fields[i], s)
                &&& rows_down_to(&fields[i], fields[i].spec_row_of(caps[i].spec_row()))
                &&& row_has_element(&fields[i], fields[i].spec_row_of(caps[i].spec_row()))
            },
    decreases caps.len(),
{
    if caps.len() > 1 {
        let n = caps.len() - 1;
        lemma_capsule_steps(caps.drop_last(), fields.drop_last(), s);
        assert(capsule_alone(caps[n - 1], fields[n - 1], s)) by {
            assert(caps.drop_last()[n - 1] == caps[n - 1]);
            assert(fields.drop_last()[n - 1] == fields[n - 1]);
        }
        let k = n - 1;
        assert(capsule_step(caps[k], caps[k + 1], fields[k], fields[k + 1], s));
        assert(k + 1 == n);
        if exists|movement: Movement, r: Option<[Update; 4]>| #[trigger]
            ControlledCapsule::move_outcome(caps[n - 1], caps[n], fields[n - 1], fields[n], &s, movement, r) {
            let (movement, r) = choose|movement: Movement, r: Option<[Update; 4]>| #[trigger]
                ControlledCapsule::move_outcome(caps[n - 1], caps[n], fields[n - 1], fields[n], &s, movement, r);
            lemma_move_keeps_wf(caps[n - 1], caps[n], fields[n - 1], fields[n], s, movement, r);
        } else {
            lemma_capsule_tick(caps[n - 1], fields[n - 1], fields[n], s);
        }
        assert forall|i: int| 0 <= i < caps.len() implies {
            &&& #[trigger] capsule_alone(caps[i], fields[i], s)
            &&& rows_down_to(&fields[i], fields[i].spec_row_of(caps[i].spec_row()))
            &&& row_has_element(&fields[i], fields[i].spec_row_of(caps[i].spec_row()))
        } by {
            if i < n {
                assert(caps.drop_last()[i] == caps[i]);
                assert(fields.drop_last()[i] == fields[i]);
            }
            lemma_alone_rows(caps[i], fields[i], s);
        }
    } else {
        lemma_alone_rows(caps[0], fields[0], s);
    }
}

/// `s` without the entries at the coordinates `p`
pub open spec fn without_position(s: Seq<(Position, Colour)>, p: (int, int)) -> Seq<(Position, Colour)>
    decreases s.len(),
{
    if s.len() == 0 {
        s
    } else {
        let rest = without_position(s.drop_last(), p);
        if pos_view(s.last().0) == p {
            rest
        } else {
            rest.push(s.last())
        }
    }
}

/// The entries of `s` which no later entry replaces: for each position, its
/// last entry, in the order of these last entries
pub open spec fn latest_entries(s: Seq<(Position, Colour)>) -> Seq<(Position, Colour)>
    decreases s.len(),
{
    if s.len() == 0 {
        s
    } else {
        without_position(latest_entries(s.drop_last()), pos_view(s.last().0)).push(s.last())
    }
}

/// No two entries share a position
pub open spec fn distinct_positions(s: Seq<(Position, Colour)>) -> bool {
    forall|i: int, j: int|
        0 <= i < j < s.len() ==> pos_view(#[trigger] s[i].0) != pos_view(#[trigger] s[j].0)
}

/// Leaving out the entries at a position keeps only entries of `s`, none at
/// that position, and keeps positions distinct.
proof fn lemma_without_position(s: Seq<(Position, Colour)>, p: (int, int))
    ensures
        forall|x: (Position, Colour)| #[trigger] without_position(s, p).contains(x) ==> s.contains(x)
            && pos_view(x.0) != p,
        distinct_positions(s) ==> distinct_positions(without_position(s, p)),
    decreases s.len(),
{
    if s.len() > 0 {
        let rest = without_position(s.drop_last(), p);
        lemma_without_position(s.drop_last(), p);
        assert forall|x: (Position, Colour)| #[trigger] without_position(s, p).contains(x) implies s.contains(x)
            && pos_view(x.0) != p by {
            if rest.contains(x) {
                let k = choose|k: int| 0 <= k < s.drop_last().len() && s.drop_last()[k] == x;
                assert(s[k] == x);
            } else {
                assert(x == s.last());
                assert(s[s.len() - 1] == x);
            }
        }
        if distinct_positions(s) {
            assert(distinct_positions(s.drop_last())) by {
                assert forall|i: int, j: int| 0 <= i < j < s.drop_last().len() implies pos_view(
                    #[trigger] s.drop_last()[i].0,
                ) != pos_view(#[trigger] s.drop_last()[j].0) by {
                    assert(s.drop_last()[i] == s[i] && s.drop_last()[j] == s[j]);
                }
            }
            if pos_view(s.last().0) != p {
                let w = rest.push(s.last());
                assert forall|i: int, j: int| 0 <= i < j < w.len() implies pos_view(#[trigger] w[i].0)
                    != pos_view(#[trigger] w[j].0) by {
                    if j == w.len() - 1 {
                        assert(rest.contains(w[i]));
                        assert(s.drop_last().contains(w[i]));
                        let k = choose|k: int| 0 <= k < s.drop_last().len() && s.drop_last()[k] == w[i];
                        assert(s[k] == w[i]);
                        assert(s[s.len() - 1] == s.last());
                    } else {
                        assert(w[i] == rest[i] && w[j] == rest[j]);
                    }
                }
            }
        }
    }
}

/// For each position, only the last entry remains.
proof fn lemma_latest_entries_distinct(s: Seq<(Position, Colour)>)
    ensures
        distinct_positions(latest_entries(s)),
    decreases s.len(),
{
    if s.len() > 0 {
        lemma_latest_entries_distinct(s.drop_last());
        let p = pos_view(s.last().0);
        let w = without_position(latest_entries(s.drop_last()), p);
        lemma_without_position(latest_entries(s.drop_last()), p);
        let l = w.push(s.last());
        assert forall|i: int, j: int| 0 <= i < j < l.len() implies pos_view(#[trigger] l[i].0) != pos_view(
            #[trigger] l[j].0,
        ) by {
            if j == l.len() - 1 {
                assert(w.contains(l[i]));
            } else {
                assert(l[i] == w[i] && l[j] == w[j]);
            }
        }
    }
}

/// Leaving out a position no entry lies at keeps every entry.
proof fn lemma_without_absent_position(s: Seq<(Position, Colour)>, p: (int, int))
    requires
        forall|i: int| 0 <= i < s.len() ==> pos_view(#[trigger] s[i].0) != p,
    ensures
        without_position(s, p) == s,
    decreases s.len(),
{
    if s.len() > 0 {
        lemma_without_absent_position(s.drop_last(), p);
        assert(s[s.len() - 1] == s.last());
        assert(s.drop_last().push(s.last()) =~= s);
    }
}

/// Entries at distinct positions are their own latest entries.
proof fn lemma_latest_entries_of_distinct(s: Seq<(Position, Colour)>)
    requires
        distinct_positions(s),
    ensures
        latest_entries(s) == s,
    decreases s.len(),
{
    if s.len() > 0 {
        let d = s.drop_last();
        assert(distinct_positions(d)) by {
            assert forall|i: int, j: int| 0 <= i < j < d.len() implies pos_view(#[trigger] d[i].0)
                != pos_view(#[trigger] d[j].0) by {
                assert(d[i] == s[i] && d[j] == s[j]);
            }
        }
        lemma_latest_entries_of_distinct(d);
        assert forall|i: int| 0 <= i < d.len() implies pos_view(#[trigger] d[i].0) != pos_view(
            s.last().0,
        ) by {
            assert(d[i] == s[i]);
            assert(s[s.len() - 1] == s.last());
        }
        lemma_without_absent_position(d, pos_view(s.last().0));
        assert(d.push(s.last()) =~= s);
    }
}

/// Keep, for each position, only the last of the given entries
fn latest_viruses(viruses: &Vec<(Position, Colour)>) -> (r: Vec<(Position, Colour)>)
    ensures
        r@ == latest_entries(viruses@),
{
    let mut res: Vec<(Position, Colour)> = Vec::new();
    let mut i: usize = 0;
    while i < viruses.len()
        invariant
            i <= viruses.len(),
            res@ == latest_entries(viruses@.take(i as int)),
        decreases viruses.len() - i,
    {
        let entry = viruses[i];
        let ghost p = pos_view(entry.0);
        let mut kept: Vec<(Position, Colour)> = Vec::new();
        let mut j: usize = 0;
        while j < res.len()
            invariant
                j <= res.len(),
                p == pos_view(entry.0),
                kept@ == without_position(res@.take(j as int), p),
            decreases res.len() - j,
        {
            proof {
                assert(res@.take(j + 1).drop_last() =~= res@.take(j as int));
            }
            let e = res[j];
            if !same_position(e.0, entry.0) {
                kept.push(e);
            }
            j = j + 1;
        }
        proof {
            assert(res@.take(res.len() as int) =~= res@);
            assert(viruses@.take(i + 1).drop_last() =~= viruses@.take(i as int));
        }
        kept.push(entry);
        res = kept;
        i = i + 1;
    }
    proof {
        assert(viruses@.take(viruses.len() as int) =~= viruses@);
    }
    res
}

/// Check whether two positions are the same
fn same_position(a: Position, b: Position) -> (r: bool)
    ensures
        r == (pos_view(a) == pos_view(b)),
{
    a.0.index() == b.0.index() && a.1.index() == b.1.index()
}

/// Game logic encapsulation
///
/// This data type provides the core logic for a round, exposed as functions.
/// These include functions for performing both controlled moves and ticks.
pub struct Actor {
    moving: MovingField,
    static_field: StaticField,
    viruses: Vec<(Position, Colour)>,
    active: ActiveElements,
    next_colours: [Colour; 2],
    chain: Vec<Colour>,
}

impl Actor {
    /// The field of moving elements
    pub closed spec fn spec_moving(&self) -> MovingField {
        self.moving
    }

    /// The field of settled elements
    pub closed spec fn spec_static(&self) -> StaticField {
        self.static_field
    }

    /// The viruses remaining
    pub closed spec fn spec_viruses(&self) -> Seq<(Position, Colour)> {
        self.viruses@
    }

    /// The currently active elements
    pub closed spec fn spec_active(&self) -> ActiveElements {
        self.active
    }

    /// The colours of the capsule to spawn next
    pub closed spec fn spec_next_colours(&self) -> [Colour; 2] {
        self.next_colours
    }

    /// The colours of the rows eliminated so far in the current chain of
    /// eliminations
    pub closed spec fn spec_chain(&self) -> Seq<Colour> {
        self.chain@
    }

    /// The actor's state is consistent
    ///
    /// Capsule elements in both fields refer to partners which refer back, no
    /// tile is occupied in both fields, the moving elements lie in rows down
    /// to the active row, which holds one of them unless there are none, and
    /// an intact controlled capsule is complete and the only moving capsule.
    pub open spec fn wf(&self) -> bool {
        let m = self.spec_moving();
        &&& moving_consistent(&m)
        &&& static_consistent(&self.spec_static())
        &&& no_overlap(&self.spec_static(), &m)
        &&& rows_down_to(&m, m.spec_row_of(self.spec_active().spec_lowest_row()))
        &&& (self.spec_active() matches ActiveElements::Controlled(c) ==> (c.spec_intact(&m)
            ==> c.is_complete(&m) && only_capsule(c, &m)))
    }

    /// Create a new actor
    ///
    /// The actor starts with the given viruses in the field of settled
    /// elements and an empty field of moving elements. Of several viruses at
    /// one position, the last one counts. A capsule will be spawned on the
    /// first tick.
    pub fn new(viruses: Vec<(Position, Colour)>, next_colours: [Colour; 2]) -> (r: Self)
        ensures
            r.spec_viruses() == latest_entries(viruses@),
            distinct_positions(r.spec_viruses()),
            distinct_positions(viruses@) ==> r.spec_viruses() == viruses@,
            r.spec_chain().len() == 0,
            r.spec_next_colours() == next_colours,
            forall|p: (int, int)| #[trigger] r.spec_moving().tile(p) is None,
            forall|p: (int, int)|
                in_field(p) ==> #[trigger] r.spec_static().tile(p) == match last_entry_at(
                    viruses@,
                    p,
                ) {
                    Some(c) => TileContents::Virus(Virus::new_spec(c)),
                    None => TileContents::Empty,
                },
            r.spec_active() matches ActiveElements::Uncontrolled(row) && r.spec_moving().spec_row_of(
                row,
            ) == 0,
            r.wf(),
    {
        let moving = MovingField::new();
        let static_field = StaticField::from_viruses(&viruses);
        let active = ActiveElements::Uncontrolled(moving.moving_row_index(RowIndex::top_row()));
        proof {
            broadcast use StaticField::lemma_tile_outside;

            reveal(moving_consistent);
            reveal(static_consistent);
            assert forall|p: (int, int)| in_field(p) implies #[trigger] static_field.tile(p).spec_element() is None by {
                assert(static_field.tile(p) == match last_entry_at(viruses@, p) {
                    Some(c) => TileContents::Virus(Virus::new_spec(c)),
                    None => TileContents::Empty,
                });
            }
        }
        let latest = latest_viruses(&viruses);
        proof {
            lemma_latest_entries_distinct(viruses@);
            if distinct_positions(viruses@) {
                lemma_latest_entries_of_distinct(viruses@);
            }
        }
        let viruses = latest;
        Actor { moving, static_field, viruses, active, next_colours, chain: Vec::new() }
    }

    /// Perform a controlled move
    ///
    /// If there is an intact controlled capsule, this function performs the
    /// given move (if possible) and returns the updates of the displayed field,
    /// to apply in order. Otherwise, this function does nothing and returns
    /// `None`.
    pub fn perform_move(&mut self, movement: Movement) -> (r: Option<[Update; 4]>)
        ensures
            old(self).spec_active() matches ActiveElements::Controlled(c) ==> (c.spec_intact(
                &old(self).spec_moving(),
            ) ==> (final(self).spec_active() matches ActiveElements::Controlled(d)
                && ControlledCapsule::move_outcome(
                c,
                d,
                old(self).spec_moving(),
                final(self).spec_moving(),
                &old(self).spec_static(),
                movement,
                r,
            ))),
            !(old(self).spec_active() matches ActiveElements::Controlled(c) && c.spec_intact(
                &old(self).spec_moving(),
            )) ==> {
                &&& final(self).spec_moving() == old(self).spec_moving()
                &&& final(self).spec_active() == old(self).spec_active()
                &&& r is None
            },
            final(self).spec_static() == old(self).spec_static(),
            final(self).spec_viruses() == old(self).spec_viruses(),
            final(self).spec_next_colours() == old(self).spec_next_colours(),
            final(self).spec_chain() == old(self).spec_chain(),
            old(self).wf() ==> final(self).wf(),
    {
        let ghost before = *self;
        match self.active {
            ActiveElements::Controlled(c0) => {
                let mut c = c0;
                if c.is_intact(&self.moving) {
                    let ghost m0 = self.moving;
                    let u = c.apply_move(&mut self.moving, &self.static_field, movement);
                    self.active = ActiveElements::Controlled(c);
                    proof {
                        if before.wf() {
                            lemma_move_keeps_wf(c0, c, m0, self.moving, self.static_field, movement, u);
                        }
                    }
                    u
                } else {
                    None
                }
            },
            ActiveElements::Uncontrolled(_) => None,
        }
    }

    /// Perform a tick
    ///
    /// This function performs the settling and elimination, removes eliminated
    /// viruses and collects the events emerging. If moving elements remain,
    /// they move down one row. Otherwise the outcome asks for new capsules to
    /// be spawned, via `spawn_received` or `spawn_controlled`.
    ///
    /// The updates returned clear the eliminated tiles and then reflect the
    /// downward movement.
    #[verifier::rlimit(100)]
    #[verifier::spinoff_prover]
    pub fn tick(&mut self) -> (r: TickOutcome)
        ensures
            tick_result(*old(self), *final(self), r.settled@, r.eliminated@, r.needs_spawn),
            elimination_events(
                r.events@,
                old(self).spec_viruses(),
                r.eliminated@,
                if r.needs_spawn {
                    old(self).spec_chain() + row_colours(r.eliminated@)
                } else {
                    Seq::empty()
                },
                r.settled@.len() > 0 && spec_defeated(&final(self).spec_static()),
            ),
            final(self).spec_chain() == if r.needs_spawn {
                Seq::empty()
            } else {
                old(self).spec_chain() + row_colours(r.eliminated@)
            },
            forall|i: int|
                rows_positions(r.eliminated@).len() <= i < r.updates.len() ==> {
                    &&& in_field(#[trigger] pos_view(r.updates[i].0))
                    &&& final(self).spec_moving().needs_update(pos_view(r.updates[i].0))
                    &&& r.updates[i].1 == final(self).spec_moving().tile(
                        pos_view(r.updates[i].0),
                    ).spec_colour()
                },
            !r.needs_spawn ==> forall|p: (int, int)|
                in_field(p) && #[trigger] final(self).spec_moving().needs_update(p) ==> exists|i: int|
                    rows_positions(r.eliminated@).len() <= i < r.updates.len() && #[trigger] pos_view(
                        r.updates[i].0,
                    ) == p,
            r.settled@.len() == 0 ==> r.eliminated@.len() == 0,
            final(self).spec_viruses() == remaining_viruses(
                old(self).spec_viruses(),
                rows_positions(r.eliminated@),
            ),
            r.updates.len() >= rows_positions(r.eliminated@).len(),
            forall|i: int|
                0 <= i < rows_positions(r.eliminated@).len() ==> #[trigger] update_view(
                    r.updates[i],
                ) == (rows_positions(r.eliminated@)[i], None::<Colour>),
            forall|q: (int, int)| #[trigger]
                rows_positions(r.eliminated@).contains(q) ==> final(self).spec_static().tile(q)
                    == TileContents::Empty,
            r.needs_spawn ==> r.updates.len() == rows_positions(r.eliminated@).len(),
            final(self).spec_next_colours() == old(self).spec_next_colours(),
            forall|p: (int, int)|
                #[trigger] final(self).spec_static().tile(p) is Virus ==> final(self).spec_static().tile(p)
                    == old(self).spec_static().tile(p),
            old(self).wf() ==> final(self).wf(),
            old(self).wf() ==> (r.needs_spawn <==> forall|p: (int, int)|
                #[trigger] final(self).spec_moving().tile(p) is None),
    {
        let ghost before = *self;
        let ghost s0 = self.static_field;
        let ghost m0 = self.moving;
        let lowest = self.moving.row_index_from_moving(self.active.lowest_row());
        let ghost low = lowest@;
        let (settled, mut lowest) = settle_elements(&mut self.moving, &mut self.static_field, lowest);
        let ghost s1 = self.static_field;
        let ghost m1 = self.moving;
        let ghost lowest1 = lowest;
        proof {
            if before.wf() {
                lemma_settle_hanging(before.moving, s0, low, settled@, m1, s1);
                lemma_rows_after_settle(before.moving, low, m1, lowest1);
            }
        }
        let mut events: Vec<Event> = Vec::new();
        let mut updates: Vec<Update> = Vec::new();
        let ghost mut s2 = s1;
        let ghost mut unsettled_row: Option<RowIndex> = None;
        let eliminated = if !settled.is_empty() {
            let eliminated = eliminate_elements(&mut self.static_field, &settled);
            let ghost cleared = self.static_field;
            let unsettled = unsettle_elements(&mut self.moving, &mut self.static_field, &eliminated);
            proof {
                s2 = cleared;
                unsettled_row = unsettled;
            }
            proof {
                assert forall|p: (int, int)| #[trigger] self.static_field.tile(p) is Virus implies self.static_field.tile(p)
                    == s0.tile(p) by {
                    assert(self.static_field.tile(p) == cleared.tile(p) || unsettled_at(
                        &cleared,
                        &self.static_field,
                        p,
                    ));
                    if !rows_positions(eliminated@).contains(p) {
                        assert(unchanged_or_unbound(s1.tile(p), cleared.tile(p)));
                    }
                    assert(s1.tile(p) == s0.tile(p) || settled@.contains(p));
                }
                assert forall|q: (int, int)| #[trigger]
                    rows_positions(eliminated@).contains(q) implies self.static_field.tile(q)
                    == TileContents::Empty by {
                    assert(cleared.tile(q) == TileContents::Empty);
                    assert(self.static_field.tile(q) == cleared.tile(q) || unsettled_at(
                        &cleared,
                        &self.static_field,
                        q,
                    ));
                }
            }
            proof {
                if before.wf() {
                    lemma_clear_hanging(
                        m1,
                        s1,
                        rows_positions(eliminated@).to_set(),
                        cleared,
                        self.moving,
                        self.static_field,
                    );
                    lemma_rows_after_unsettle(
                        m1,
                        lowest1,
                        cleared,
                        self.moving,
                        self.static_field,
                        unsettled,
                    );
                }
            }
            lowest = lower_row(unsettled, lowest);
            let positions = eliminated.positions();
            let ghost gone = rows_positions(eliminated@);
            let ghost viruses_before = self.viruses@;
            let hit = self.remove_viruses(&positions);
            if hit {
                events.push(Event::Score(self.viruses.len() as u32));
            }
            let mut colours = eliminated_colours(&eliminated);
            self.chain.append(&mut colours);
            updates = clearing_updates(&positions);
            if let Some(l) = lowest {
                self.active = ActiveElements::Uncontrolled(self.moving.moving_row_index(l));
            }
            proof {
                assert(before.wf() ==> ready_to_move(
                    &self.static_field,
                    &self.moving,
                    self.active,
                    lowest,
                ));
            }
            eliminated
        } else {
            proof {
                assert(rows_positions(Seq::<(Colour, RowOfFour)>::empty()) =~= Seq::empty());
                lemma_nothing_remains_removed(self.viruses@);
                if before.wf() {
                    assert forall|p: (int, int)| #[trigger] m1.tile(p) == before.moving.tile(p) by {
                        assert(!settled@.contains(p));
                    }
                    if let Some(l) = lowest {
                        let c = choose|c: int| 0 <= c < FIELD_WIDTH && #[trigger] m1.tile((l@, c)) is Some;
                        assert(before.moving.tile((l@, c)) is Some);
                        assert(row_has_element(&before.moving, low));
                        let d = choose|d: int| 0 <= d < FIELD_WIDTH && #[trigger] before.moving.tile((low, d)) is Some;
                        assert(m1.tile((low, d)) is Some);
                        assert(row_has_element(&m1, low));
                        assert(low == l@);
                        if let ActiveElements::Controlled(cap) = self.active {
                            assert(cap.anchor(&m1) == cap.anchor(&before.moving));
                            assert(m1.tile(cap.anchor(&m1)) == before.moving.tile(cap.anchor(&m1)));
                            if cap.spec_intact(&m1) {
                                assert(cap.partner(&m1) == cap.partner(&before.moving));
                                assert(m1.tile(cap.partner(&m1)) == before.moving.tile(cap.partner(&m1)));
                            }
                        }
                    }
                }
                assert(before.wf() ==> ready_to_move(
                    &self.static_field,
                    &self.moving,
                    self.active,
                    lowest,
                ));
            }
            let none = Eliminated::new(Vec::new());
            proof {
                assert(none@ =~= Seq::<(Colour, RowOfFour)>::empty());
                assert(row_colours(none@) =~= Seq::<Colour>::empty());
                assert(self.chain@ + row_colours(none@) =~= self.chain@);
            }
            none
        };
        let needs_spawn = lowest.is_none();
        let ghost chain_before = self.chain@;
        if needs_spawn {
            let mut sent: Vec<Colour> = Vec::new();
            std::mem::swap(&mut sent, &mut self.chain);
            if sent.len() > MIN_ROWS_SEND {
                events.push(Event::Capsules(sent));
            }
        }
        if !settled.is_empty() && defeated(&self.static_field) {
            events.push(Event::Defeat);
        }
        let ghost m_mid = self.moving;
        let ghost updates_before = updates@;
        if !needs_spawn {
            let mut moved = self.moving.tick();
            let ghost moved_view = moved@;
            updates.append(&mut moved);
            proof {
                let k = updates_before.len() as int;
                assert forall|i: int| k <= i < updates.len() implies updates[i] == moved_view[i - k] by {}
                assert forall|p: (int, int)|
                    in_field(p) && #[trigger] self.moving.needs_update(p) implies exists|i: int|
                        k <= i < updates.len() && #[trigger] pos_view(updates[i].0) == p by {
                    let j = choose|j: int| 0 <= j < moved_view.len() && #[trigger] pos_view(moved_view[j].0) == p;
                    assert(updates[k + j] == moved_view[j]);
                }
            }
        }
        proof {
            assert(tick_result(before, *self, settled@, eliminated@, needs_spawn)) by {
                assert(tick_steps(
                    before.moving,
                    before.static_field,
                    low,
                    settled@,
                    eliminated@,
                    needs_spawn,
                    self.moving,
                    self.static_field,
                    m1,
                    s1,
                    lowest1,
                    s2,
                    m_mid,
                    unsettled_row,
                ));
            }
        }
        proof {
            if before.wf() {
                if let Some(l) = lowest {
                    let c = choose|c: int| 0 <= c < FIELD_WIDTH && #[trigger] m_mid.tile((l@, c)) is Some;
                    assert(l@ < FIELD_HEIGHT - 1);
                    lemma_tick_hanging(self.static_field, m_mid, self.moving, l@);
                    assert(self.moving.tile((l@ + 1, c)) == m_mid.tile((l@, c)));
                    if let ActiveElements::Controlled(cap) = self.active {
                        lemma_capsule_shift(cap, m_mid, self.moving);
                    }
                } else {
                    if let ActiveElements::Controlled(cap) = self.active {
                        assert(m_mid.tile(cap.anchor(&m_mid)) is None);
                    }
                }
            }
        }
        TickOutcome { events, updates, needs_spawn, settled, eliminated }
    }

    /// Spawn capsule elements received from another player
    ///
    /// The elements are placed in the top row at the given columns. The
    /// function returns the updates reflecting the change.
    pub fn spawn_received(&mut self, capsules: Vec<(ColumnIndex, Colour)>) -> (r: Vec<Update>)
        ensures
            forall|p: (int, int)|
                in_field(p) && p.0 != 0 ==> #[trigger] final(self).spec_moving().tile(p) == old(
                    self,
                ).spec_moving().tile(p),
            forall|c: int|
                0 <= c < FIELD_WIDTH ==> #[trigger] final(self).spec_moving().tile((0, c))
                    == match last_capsule_at(capsules@, c) {
                    Some(col) => Some(CapsuleElement::single_spec(col)),
                    None => old(self).spec_moving().tile((0, c)),
                },
            final(self).spec_active() matches ActiveElements::Uncontrolled(row)
                && final(self).spec_moving().spec_row_of(row) == 0,
            r.len() == capsules.len(),
            forall|i: int|
                #![trigger r[i]]
                0 <= i < r.len() ==> update_view(r[i]) == ((0int, capsules[i].0@), Some(
                    capsules[i].1,
                )),
            final(self).spec_static() == old(self).spec_static(),
            final(self).spec_viruses() == old(self).spec_viruses(),
            final(self).spec_next_colours() == old(self).spec_next_colours(),
            final(self).spec_chain() == old(self).spec_chain(),
            old(self).wf() && (forall|p: (int, int)| #[trigger] old(self).spec_moving().tile(p) is None)
                && !spec_defeated(&old(self).spec_static()) ==> final(self).wf(),
    {
        let ghost before = *self;
        self.active = ActiveElements::Uncontrolled(self.moving.moving_row_index(RowIndex::top_row()));
        let ghost m0 = self.moving;
        let r = self.moving.spawn_single_capsules(capsules);
        proof {
            assert(self.moving.spec_row_of(self.active.spec_lowest_row()) == m0.spec_row_of(
                self.active.spec_lowest_row(),
            ));
            if before.wf() && (forall|p: (int, int)| #[trigger] m0.tile(p) is None)
                && !spec_defeated(&self.static_field) {
                broadcast use MovingField::lemma_tile_outside;
                broadcast use CapsuleElement::lemma_single;

                let m = self.moving;
                assert forall|p: (int, int)| #[trigger] m.tile(p) is Some implies p.0 == 0
                    && m.tile(p)->0.spec_partner() is None by {
                    assert(in_field(p));
                    if p.0 != 0 {
                        assert(m.tile(p) == m0.tile(p));
                    } else {
                        assert(m.tile((0, p.1)) == match last_capsule_at(capsules@, p.1) {
                            Some(col) => Some(CapsuleElement::single_spec(col)),
                            None => m0.tile((0, p.1)),
                        });
                    }
                }
                assert(moving_consistent(&m)) by {
                    reveal(moving_consistent);
                }
                assert forall|p: (int, int)| #[trigger] m.tile(p) is Some implies !self.static_field.tile(
                    p,
                ).spec_is_occupied() by {
                    assert(0 <= p.1 < FIELD_WIDTH);
                    assert(!self.static_field.tile((0, p.1)).spec_is_occupied());
                }
                if exists|p: (int, int)| #[trigger] m.tile(p) is Some {
                    let p = choose|p: (int, int)| #[trigger] m.tile(p) is Some;
                    assert(m.tile((0, p.1)) is Some);
                }
            }
        }
        r
    }

    /// Spawn a new controlled capsule
    ///
    /// The capsule takes the colours previously chosen as the next ones, and
    /// new colours are drawn for the next capsule. The function returns the
    /// updates drawing the capsule and the colours of the next capsule.
    pub fn spawn_controlled(&mut self, rng: &mut Mcg128Xsl64) -> (r: ([Update; 2], [Colour; 2]))
        ensures
            final(self).spec_active() matches ActiveElements::Controlled(c) && {
                &&& final(self).spec_moving().spec_row_of(c.spec_row()) == 0
                &&& c.spec_column() == 3
            },
            forall|p: (int, int)| #[trigger]
                final(self).spec_moving().tile(p) == if p == (0int, 3int) {
                    Some(
                        CapsuleElement::new_spec(
                            old(self).spec_next_colours()[0],
                            Some(Direction::Right),
                        ),
                    )
                } else if p == (0int, 4int) {
                    Some(
                        CapsuleElement::new_spec(
                            old(self).spec_next_colours()[1],
                            Some(Direction::Left),
                        ),
                    )
                } else {
                    old(self).spec_moving().tile(p)
                },
            update_view(r.0[0]) == ((0int, 3int), Some(old(self).spec_next_colours()[0])),
            update_view(r.0[1]) == ((0int, 4int), Some(old(self).spec_next_colours()[1])),
            r.1 == final(self).spec_next_colours(),
            final(self).spec_static() == old(self).spec_static(),
            final(self).spec_viruses() == old(self).spec_viruses(),
            final(self).spec_chain() == old(self).spec_chain(),
            old(self).wf() && (forall|p: (int, int)| #[trigger] old(self).spec_moving().tile(p) is None)
                && !spec_defeated(&old(self).spec_static()) ==> final(self).wf(),
    {
        let ghost before = *self;
        let (capsule, updates) = ControlledCapsule::spawn_capsule(&mut self.moving, &self.next_colours);
        proof {
            if before.wf() && (forall|p: (int, int)| #[trigger] before.moving.tile(p) is None)
                && !spec_defeated(&self.static_field) {
                broadcast use MovingField::lemma_tile_outside;
                broadcast use CapsuleElement::lemma_new;

                let m = self.moving;
                let l = (0int, 3int);
                let r = (0int, 4int);
                assert(m.tile(l) == Some(CapsuleElement::new_spec(before.next_colours[0], Some(Direction::Right))));
                assert(m.tile(r) == Some(CapsuleElement::new_spec(before.next_colours[1], Some(Direction::Left))));
                assert(capsule.anchor(&m) == l);
                assert(capsule.partner(&m) == r);
                assert forall|p: (int, int)| #[trigger] m.tile(p) is Some implies p == l || p == r by {
                    assert(before.moving.tile(p) is None);
                }
                assert(moving_consistent(&m)) by {
                    reveal(moving_consistent);
                }
                assert forall|p: (int, int)| #[trigger] m.tile(p) is Some implies !self.static_field.tile(
                    p,
                ).spec_is_occupied() by {
                    assert(!self.static_field.tile((0, p.1)).spec_is_occupied());
                }
                assert(m.tile((0, 3)) is Some);
            }
        }
        let first = random_colour(rng);
        let second = random_colour(rng);
        self.next_colours = [first, second];
        self.active = ActiveElements::Controlled(capsule);
        (updates, self.next_colours)
    }

    /// Spawn new capsules once no moving element is left
    ///
    /// Capsule elements received from other players take precedence: if there
    /// are some, they spawn; otherwise a new controlled capsule spawns. The
    /// function returns the updates drawing them and, if a controlled capsule
    /// spawned, the colours of the next one.
    pub fn spawn_next(
        &mut self,
        received: Option<Vec<(ColumnIndex, Colour)>>,
        rng: &mut Mcg128Xsl64,
    ) -> (r: (Vec<Update>, Option<[Colour; 2]>))
        ensures
            match received {
                Some(capsules) => r.1 is None && spawned_received(
                    *old(self),
                    *final(self),
                    capsules@,
                    r.0@,
                ),
                None => r.1 matches Some(next) && spawned_controlled(
                    *old(self),
                    *final(self),
                    r.0@,
                    next,
                ),
            },
            final(self).spec_chain() == old(self).spec_chain(),
            old(self).wf() && (forall|p: (int, int)| #[trigger] old(self).spec_moving().tile(p) is None)
                && !spec_defeated(&old(self).spec_static()) ==> final(self).wf(),
    {
        match received {
            Some(capsules) => {
                let updates = self.spawn_received(capsules);
                (updates, None)
            },
            None => {
                let (updates, next) = self.spawn_controlled(rng);
                let v = vec![updates[0], updates[1]];
                (v, Some(next))
            },
        }
    }

    /// Check whether there is a controlled capsule
    pub fn is_controlled(&self) -> (r: bool)
        ensures
            r == self.spec_active() is Controlled,
    {
        self.active.is_controlled()
    }

    /// Check whether we are defeated
    pub fn is_defeated(&self) -> (r: bool)
        ensures
            r == spec_defeated(&self.spec_static()),
    {
        defeated(&self.static_field)
    }

    /// Retrieve the number of remaining viruses
    pub fn virus_count(&self) -> (r: usize)
        ensures
            r == self.spec_viruses().len(),
    {
        self.viruses.len()
    }

    /// Retrieve the remaining viruses
    pub fn remaining_viruses(&self) -> (r: Vec<(Position, Colour)>)
        ensures
            r@ == self.spec_viruses(),
    {
        let mut r: Vec<(Position, Colour)> = Vec::new();
        let mut i: usize = 0;
        while i < self.viruses.len()
            invariant
                i <= self.viruses.len(),
                r@ == self.viruses@.take(i as int),
            decreases self.viruses.len() - i,
        {
            r.push(self.viruses[i]);
            assert(r@ =~= self.viruses@.take(i + 1));
            i = i + 1;
        }
        assert(self.viruses@.take(self.viruses.len() as int) =~= self.viruses@);
        r
    }

    /// Retrieve the colours of the capsule to spawn next
    pub fn next_colours(&self) -> (r: [Colour; 2])
        ensures
            r == self.spec_next_colours(),
    {
        self.next_colours
    }

    /// Remove the viruses at the given positions
    ///
    /// The function returns whether any virus was removed.
    fn remove_viruses(&mut self, positions: &Vec<Position>) -> (r: bool)
        ensures
            final(self).spec_viruses() == remaining_viruses(
                old(self).spec_viruses(),
                positions@.map_values(|p: Position| pos_view(p)),
            ),
            r == hits_virus(old(self).spec_viruses(), positions@.map_values(|p: Position| pos_view(p))),
            final(self).spec_moving() == old(self).spec_moving(),
            final(self).spec_static() == old(self).spec_static(),
            final(self).spec_active() == old(self).spec_active(),
            final(self).spec_next_colours() == old(self).spec_next_colours(),
            final(self).spec_chain() == old(self).spec_chain(),
    {
        let ghost gone = positions@.map_values(|p: Position| pos_view(p));
        let mut kept: Vec<(Position, Colour)> = Vec::new();
        let mut hit = false;
        let mut i: usize = 0;
        while i < self.viruses.len()
            invariant
                i <= self.viruses.len(),
                gone == positions@.map_values(|p: Position| pos_view(p)),
                kept@ == remaining_viruses(self.viruses@.take(i as int), gone),
                hit == hits_virus(self.viruses@.take(i as int), gone),
            decreases self.viruses.len() - i,
        {
            let v = self.viruses[i];
            proof {
                let prefix = self.viruses@.take(i + 1);
                assert(prefix.drop_last() =~= self.viruses@.take(i as int));
                assert(prefix =~= self.viruses@.take(i as int).push(v));
                lemma_hits_virus_push(self.viruses@.take(i as int), v, gone);
            }
            if contains_position(positions, v.0) {
                hit = true;
            } else {
                kept.push(v);
            }
            i = i + 1;
        }
        assert(self.viruses@.take(self.viruses.len() as int) =~= self.viruses@);
        self.viruses = kept;
        hit
    }
}

/// Removing no position keeps every virus.
proof fn lemma_nothing_remains_removed(viruses: Seq<(Position, Colour)>)
    ensures
        remaining_viruses(viruses, Seq::empty()) == viruses,
        !hits_virus(viruses, Seq::empty()),
    decreases viruses.len(),
{
    if viruses.len() > 0 {
        lemma_nothing_remains_removed(viruses.drop_last());
        assert(viruses.drop_last().push(viruses.last()) =~= viruses);
    }
}

/// The state of a player during a round
#[derive(Copy, Clone, Debug, PartialEq, Eq, Structural)]
pub enum PlayerState {
    Playing,
    Succeeded,
    Defeated,
}

impl Default for PlayerState {
    fn default() -> (r: Self)
        ensures
            r == PlayerState::Playing,
    {
        PlayerState::Playing
    }
}

/// Score board entry for the round phase
///
/// The round score is the number of viruses remaining in the player's field.
#[derive(Clone, Debug)]
pub struct ScoreBoardEntry<T> {
    tag: T,
    round_score: u32,
    state: PlayerState,
}

impl<T> ScoreBoardEntry<T> {
    /// The player's tag
    pub closed spec fn spec_tag(&self) -> T {
        self.tag
    }

    /// The player's round score
    pub closed spec fn spec_round_score(&self) -> u32 {
        self.round_score
    }

    /// The player's state
    pub closed spec fn spec_state(&self) -> PlayerState {
        self.state
    }

    /// Create an entry for the given player, playing, whose round score is
    /// the number of viruses placed in the player's field for the round
    pub fn new(tag: T, viruses: u32) -> (r: Self)
        ensures
            r.spec_tag() == tag,
            r.spec_round_score() == viruses,
            r.spec_state() == PlayerState::Playing,
    {
        ScoreBoardEntry { tag, round_score: viruses, state: PlayerState::Playing }
    }

    /// Retrieve the player's tag
    pub fn tag(&self) -> (r: &T)
        ensures
            *r == self.spec_tag(),
    {
        &self.tag
    }

    /// Set the player's round score
    pub fn set_score(&mut self, score: u32)
        ensures
            final(self).spec_round_score() == score,
            final(self).spec_state() == old(self).spec_state(),
            final(self).spec_tag() == old(self).spec_tag(),
    {
        self.round_score = score;
    }

    /// Retrieve the player's round score
    pub fn round_score(&self) -> (r: u32)
        ensures
            r == self.spec_round_score(),
    {
        self.round_score
    }

    /// Retrieve the player's state
    pub fn state(&self) -> (r: PlayerState)
        ensures
            r == self.spec_state(),
    {
        self.state
    }

    /// Set the player's state
    pub fn set_state(&mut self, state: PlayerState)
        ensures
            final(self).spec_state() == state,
            final(self).spec_round_score() == old(self).spec_round_score(),
            final(self).spec_tag() == old(self).spec_tag(),
    {
        self.state = state;
    }

    /// Whether the player is still active, i.e. not defeated
    pub fn active(&self) -> (r: bool)
        ensures
            r == (self.spec_state() != PlayerState::Defeated),
    {
        self.state != PlayerState::Defeated
    }
}

impl<T> Entry for ScoreBoardEntry<T> {
    fn round_score(&self) -> (r: u32)
        ensures
            r == self.spec_round_score(),
    {
        self.round_score
    }

    fn active(&self) -> (r: bool)
        ensures
            r == (self.spec_state() != PlayerState::Defeated),
    {
        self.state != PlayerState::Defeated
    }
}

/// The round score after an event of the player: a score event reports the
/// number of viruses remaining, other events leave the score
pub open spec fn score_after_event(score: u32, event: Event) -> u32 {
    match event {
        Event::Score(s) => s,
        _ => score,
    }
}

/// The round score after the given events of the player, in order
pub open spec fn score_after(score: u32, events: Seq<Event>) -> u32
    decreases events.len(),
{
    if events.len() == 0 {
        score
    } else {
        score_after_event(score_after(score, events.drop_last()), events.last())
    }
}

/// Eliminating positions without a virus keeps every virus; no elimination
/// adds one.
pub proof fn lemma_remaining_viruses(viruses: Seq<(Position, Colour)>, positions: Seq<(int, int)>)
    ensures
        remaining_viruses(viruses, positions).len() <= viruses.len(),
        !hits_virus(viruses, positions) ==> remaining_viruses(viruses, positions) == viruses,
    decreases viruses.len(),
{
    if viruses.len() > 0 {
        let d = viruses.drop_last();
        lemma_remaining_viruses(d, positions);
        if !hits_virus(viruses, positions) {
            assert(!hits_virus(d, positions)) by {
                if hits_virus(d, positions) {
                    let i = choose|i: int| 0 <= i < d.len() && positions.contains(pos_view(#[trigger] d[i].0));
                    assert(viruses[i] == d[i]);
                }
            }
            assert(!positions.contains(pos_view(viruses[viruses.len() - 1].0)));
            assert(d.push(viruses.last()) =~= viruses);
        }
    }
}

/// The round score keeps track of the viruses remaining
///
/// When a player's round score is the number of viruses in the player's
/// field before a tick, applying the events of the tick to it in order gives
/// the number of viruses remaining after the tick, whether or not an
/// eliminated row held a virus.
pub proof fn lemma_round_score_follows_viruses(
    score: u32,
    viruses: Seq<(Position, Colour)>,
    events: Seq<Event>,
    rows: Seq<(Colour, RowOfFour)>,
    sent: Seq<Colour>,
    defeat: bool,
)
    requires
        score == viruses.len(),
        elimination_events(events, viruses, rows, sent, defeat),
    ensures
        score_after(score, events) == remaining_viruses(viruses, rows_positions(rows)).len(),
{
    let positions = rows_positions(rows);
    lemma_remaining_viruses(viruses, positions);
    let hit = hits_virus(viruses, positions);
    let n: int = if hit { 1 } else { 0 };
    assert forall|i: int| n <= i < events.len() implies !(#[trigger] events[i] is Score) by {
        let capsules: int = if sent.len() > MIN_ROWS_SEND { 1 } else { 0 };
        if i == n && capsules == 1 {
            assert(events[n] is Capsules);
        } else {
            assert(events[i] == Event::Defeat);
        }
    }
    assert forall|k: int| n <= k <= events.len() implies score_after(score, #[trigger] events.take(k))
        == score_after(score, events.take(n)) by {
        lemma_score_after_no_score(score, events, n, k);
    }
    assert(events.take(events.len() as int) =~= events);
    if hit {
        assert(events.take(1).drop_last() =~= events.take(0));
        assert(events.take(0) =~= Seq::<Event>::empty());
    } else {
        assert(events.take(0) =~= Seq::<Event>::empty());
    }
}

/// Events other than score events from index `n` on keep the round score.
proof fn lemma_score_after_no_score(score: u32, events: Seq<Event>, n: int, k: int)
    requires
        0 <= n <= k <= events.len(),
        forall|i: int| n <= i < events.len() ==> !(#[trigger] events[i] is Score),
    ensures
        score_after(score, events.take(k)) == score_after(score, events.take(n)),
    decreases k - n,
{
    if k > n {
        lemma_score_after_no_score(score, events, n, k - 1);
        assert(events.take(k).drop_last() =~= events.take(k - 1));
        assert(events.take(k).last() == events[k - 1]);
    }
}

/// The overall score after a round adds the viruses remaining
///
/// When each player's round score is the number of viruses remaining in the
/// player's field, the overall scores `overall_scores` gives add that number
/// to each player's total.
pub proof fn lemma_overall_adds_remaining<T>(
    totals: Seq<u32>,
    entries: Seq<ScoreBoardEntry<T>>,
    remaining: Seq<nat>,
    r: Seq<u32>,
)
    requires
        totals.len() == entries.len(),
        remaining.len() == entries.len(),
        forall|i: int| 0 <= i < entries.len() ==> #[trigger] entries[i].spec_round_score() == remaining[i],
        r.len() == totals.len(),
        forall|i: int| 0 <= i < r.len() ==> #[trigger] r[i] == wrapping_sum(totals[i], entries[i].spec_round_score()),
    ensures
        forall|i: int|
            0 <= i < r.len() ==> #[trigger] r[i] == if totals[i] + remaining[i] > u32::MAX {
                totals[i] + remaining[i] - 0x1_0000_0000
            } else {
                totals[i] + remaining[i]
            },
{
}

/// Apply an event reported by the player at `sender` to the round's score board
///
/// A score event records the player's round score, the number of viruses
/// remaining. A player without viruses left succeeded, is no longer active,
/// and ends the round. A defeated player is no longer active. Capsule elements
/// change nothing here. The function returns whether the round is over.
pub fn apply_round_event<T>(
    entries: &mut Vec<ScoreBoardEntry<T>>,
    active: &mut Vec<bool>,
    sender: usize,
    event: &Event,
) -> (round_over: bool)
    requires
        old(entries).len() == old(active).len(),
        sender < old(entries).len(),
    ensures
        final(entries).len() == old(entries).len(),
        final(active).len() == old(active).len(),
        forall|i: int|
            0 <= i < old(entries).len() && i != sender ==> #[trigger] final(entries)[i] == old(entries)[i] && final(active)[i] == old(active)[i],
        final(entries)[sender as int].spec_tag() == old(entries)[sender as int].spec_tag(),
        final(entries)[sender as int].spec_round_score() == score_after_event(
            old(entries)[sender as int].spec_round_score(),
            *event,
        ),
        match *event {
            Event::Score(s) => {
                &&& final(entries)[sender as int].spec_round_score() == s
                &&& round_over == (s == 0)
                &&& s == 0 ==> !final(active)[sender as int] && final(entries)[sender as int].spec_state() == PlayerState::Succeeded
                &&& s != 0 ==> final(active)[sender as int] == old(active)[sender as int] && final(entries)[sender as int].spec_state() == old(entries)[sender as int].spec_state()
            },
            Event::Defeat => {
                &&& !final(active)[sender as int]
                &&& final(entries)[sender as int].spec_state() == PlayerState::Defeated
                &&& final(entries)[sender as int].spec_round_score() == old(entries)[sender as int].spec_round_score()
                &&& !round_over
            },
            Event::Capsules(_) => {
                &&& final(entries)@ == old(entries)@
                &&& final(active)@ == old(active)@
                &&& !round_over
            },
        },
{
    match event {
        Event::Score(score) => {
            let ghost before = entries@;
            let mut e = entries.remove(sender);
            e.set_score(*score);
            if *score == 0 {
                e.set_state(PlayerState::Succeeded);
                active.set(sender, false);
            }
            entries.insert(sender, e);
            proof {
                assert(entries@ =~= before.update(sender as int, e));
            }
            *score == 0
        },
        Event::Defeat => {
            let ghost before = entries@;
            let mut e = entries.remove(sender);
            e.set_state(PlayerState::Defeated);
            entries.insert(sender, e);
            active.set(sender, false);
            proof {
                assert(entries@ =~= before.update(sender as int, e));
            }
            false
        },
        Event::Capsules(_) => false,
    }
}

/// Whether any player is still active in the round
pub fn any_active(active: &Vec<bool>) -> (r: bool)
    ensures
        r == exists|i: int| 0 <= i < active.len() && #[trigger] active[i],
{
    let mut i: usize = 0;
    while i < active.len()
        invariant
            i <= active.len(),
            forall|j: int| 0 <= j < i ==> !#[trigger] active[j],
        decreases active.len() - i,
    {
        if active[i] {
            return true;
        }
        i = i + 1;
    }
    false
}

/// The sum of two scores, wrapping around on overflow
pub open spec fn wrapping_sum(a: u32, b: u32) -> int {
    if a + b > u32::MAX {
        a + b - 0x1_0000_0000
    } else {
        a + b
    }
}

/// The overall scores after a round: each player's round score is added to
/// the player's total, wrapping around on overflow
pub fn overall_scores<T>(totals: &Vec<u32>, entries: &Vec<ScoreBoardEntry<T>>) -> (r: Vec<u32>)
    requires
        totals.len() == entries.len(),
    ensures
        r.len() == totals.len(),
        forall|i: int| 0 <= i < r.len() ==> #[trigger] r[i] == wrapping_sum(
            totals[i],
            entries[i].spec_round_score(),
        ),
{
    let mut r: Vec<u32> = Vec::new();
    let mut i: usize = 0;
    while i < totals.len()
        invariant
            i <= totals.len(),
            totals.len() == entries.len(),
            r.len() == i,
            forall|j: int| 0 <= j < i ==> #[trigger] r[j] == wrapping_sum(
                totals[j],
                entries[j].spec_round_score(),
            ),
        decreases totals.len() - i,
    {
        let sum = totals[i] as u64 + entries[i].round_score() as u64;
        let total = if sum > u32::MAX as u64 {
            (sum - 0x1_0000_0000) as u32
        } else {
            sum as u32
        };
        r.push(total);
        i = i + 1;
    }
    r
}

/// Order the players eligible to receive capsule elements
///
/// The players, given by their indices, are ordered by their remaining
/// viruses, fewest first; players with the same number keep their order. The
/// sender and players which are not eligible are left out.
pub fn capsule_recipients(scores: &Vec<u32>, eligible: &Vec<bool>, sender: usize) -> (r: Vec<
    usize,
>)
    requires
        scores.len() == eligible.len(),
    ensures
        forall|i: int| 0 <= i < r.len() ==> #[trigger] r[i] < scores.len(),
        forall|i: int| 0 <= i < r.len() ==> eligible[#[trigger] r[i] as int] && r[i] != sender,
        forall|k: int|
            0 <= k < scores.len() && eligible[k] && k != sender ==> #[trigger] r@.contains(
                k as usize,
            ),
        r@.no_duplicates(),
        forall|i: int, j: int| 0 <= i < j < r.len() ==> scores[#[trigger] r[i] as int] <= scores[#[trigger] r[j] as int],
        forall|i: int, j: int|
            0 <= i < j < r.len() && scores[r[i] as int] == scores[r[j] as int] ==> #[trigger] r[i] < #[trigger] r[j],
{
    let mut r: Vec<usize> = Vec::new();
    let mut k: usize = 0;
    while k < scores.len()
        invariant
            k <= scores.len(),
            scores.len() == eligible.len(),
            forall|i: int| 0 <= i < r.len() ==> #[trigger] r[i] < k,
            forall|i: int| 0 <= i < r.len() ==> eligible[#[trigger] r[i] as int] && r[i] != sender,
            forall|m: int| 0 <= m < k && eligible[m] && m != sender ==> #[trigger] r@.contains(m as usize),
            r@.no_duplicates(),
            forall|i: int, j: int| 0 <= i < j < r.len() ==> scores[#[trigger] r[i] as int] <= scores[#[trigger] r[j] as int],
            forall|i: int, j: int|
                0 <= i < j < r.len() && scores[r[i] as int] == scores[r[j] as int] ==> #[trigger] r[i] < #[trigger] r[j],
        decreases scores.len() - k,
    {
        if eligible[k] && k != sender {
            let score = scores[k];
            let mut pos: usize = 0;
            while pos < r.len() && scores[r[pos]] <= score
                invariant
                    pos <= r.len(),
                    forall|i: int| 0 <= i < r.len() ==> #[trigger] r[i] < k,
                    k < scores.len(),
                    score == scores[k as int],
                    forall|i: int| 0 <= i < pos ==> scores[#[trigger] r[i] as int] <= score,
                decreases r.len() - pos,
            {
                pos = pos + 1;
            }
            let ghost old_r = r@;
            r.insert(pos, k);
            proof {
                old_r.insert_ensures(pos as int, k);
                assert forall|i: int| pos <= i < old_r.len() implies r[i + 1] == old_r[i] by {}
                assert forall|i: int| 0 <= i < r.len() implies #[trigger] r[i] < k + 1 by {
                    if i < pos {
                        assert(r[i] == old_r[i]);
                    } else if i > pos {
                        assert(r[i] == old_r[i - 1]);
                    }
                }
                assert forall|m: int| 0 <= m < k + 1 && eligible[m] && m != sender implies #[trigger] r@.contains(m as usize) by {
                    if m < k {
                        assert(old_r.contains(m as usize));
                        let j = choose|j: int| 0 <= j < old_r.len() && old_r[j] == m as usize;
                        if j < pos {
                            assert(r[j] == old_r[j]);
                        } else {
                            assert(r[j + 1] == old_r[j]);
                        }
                    } else {
                        assert(r[pos as int] == k);
                    }
                }
                assert forall|i: int, j: int| 0 <= i < j < r.len() implies r[i] != r[j] by {
                    if i != pos && j != pos {
                        let oi = if i < pos { i } else { i - 1 };
                        let oj = if j < pos { j } else { j - 1 };
                        assert(r[i] == old_r[oi] && r[j] == old_r[oj]);
                    } else if i == pos {
                        assert(r[j] == old_r[j - 1]);
                    } else {
                        assert(r[i] == old_r[i]);
                    }
                }
                assert forall|i: int, j: int| 0 <= i < j < r.len() implies scores[#[trigger] r[i] as int] <= scores[#[trigger] r[j] as int] && (scores[r[i] as int] == scores[r[j] as int] ==> r[i] < r[j]) by {
                    if i != pos && j != pos {
                        let oi = if i < pos { i } else { i - 1 };
                        let oj = if j < pos { j } else { j - 1 };
                        assert(r[i] == old_r[oi] && r[j] == old_r[oj]);
                    } else if i == pos {
                        assert(r[j] == old_r[j - 1]);
                        assert(scores[old_r[pos as int] as int] > score) by {
                            assert(j - 1 >= pos);
                        }
                    } else {
                        assert(r[i] == old_r[i]);
                    }
                }
            }
        }
        k = k + 1;
    }
    r
}

/// The number of batches capsule elements are split into for the recipients
pub open spec fn batch_count(elements: int, recipients: int) -> int {
    let needed = (elements + MAX_CAPSULE_RECEIVE - 1) / (MAX_CAPSULE_RECEIVE as int);
    if needed < recipients {
        needed
    } else {
        recipients
    }
}

/// Distribute capsule elements among recipients
///
/// The elements are split, in order, into batches of at most
/// `MAX_CAPSULE_RECEIVE` elements, one for each recipient in turn: a recipient
/// receives elements only if all recipients before it received the maximum
/// number. Elements left once every recipient received the maximum are
/// dropped. Each element is placed in a random column.
pub fn distribute_capsules(elements: &Vec<Colour>, recipients: usize, rng: &mut Mcg128Xsl64) -> (r:
    Vec<Vec<(ColumnIndex, Colour)>>)
    ensures
        r.len() == batch_count(elements.len() as int, recipients as int),
        forall|i: int|
            0 <= i < r.len() ==> (#[trigger] r[i]).len() == if elements.len() - MAX_CAPSULE_RECEIVE
                * i < MAX_CAPSULE_RECEIVE {
                elements.len() - MAX_CAPSULE_RECEIVE * i
            } else {
                MAX_CAPSULE_RECEIVE as int
            },
        forall|i: int, j: int|
            0 <= i < r.len() && 0 <= j < r[i].len() ==> #[trigger] r[i][j].1 == elements[MAX_CAPSULE_RECEIVE * i + j],
{
    let ghost needed = (elements.len() + MAX_CAPSULE_RECEIVE - 1) / (MAX_CAPSULE_RECEIVE as int);
    let mut r: Vec<Vec<(ColumnIndex, Colour)>> = Vec::new();
    let mut start: usize = 0;
    while start < elements.len() && r.len() < recipients
        invariant
            needed == (elements.len() + MAX_CAPSULE_RECEIVE - 1) / (MAX_CAPSULE_RECEIVE as int),
            start <= elements.len(),
            start < elements.len() ==> start == MAX_CAPSULE_RECEIVE * r.len(),
            start == elements.len() ==> r.len() == needed,
            r.len() <= recipients,
            r.len() <= needed,
            forall|i: int|
                0 <= i < r.len() ==> (#[trigger] r[i]).len() == if elements.len() - MAX_CAPSULE_RECEIVE
                    * i < MAX_CAPSULE_RECEIVE {
                    elements.len() - MAX_CAPSULE_RECEIVE * i
                } else {
                    MAX_CAPSULE_RECEIVE as int
                },
            forall|i: int, j: int|
                0 <= i < r.len() && 0 <= j < r[i].len() ==> #[trigger] r[i][j].1 == elements[MAX_CAPSULE_RECEIVE * i + j],
        decreases elements.len() - start,
    {
        let end = if elements.len() - start <= MAX_CAPSULE_RECEIVE {
            elements.len()
        } else {
            start + MAX_CAPSULE_RECEIVE
        };
        let mut batch: Vec<(ColumnIndex, Colour)> = Vec::new();
        let mut k = start;
        while k < end
            invariant
                start <= k <= end,
                end <= elements.len(),
                batch.len() == k - start,
                forall|j: int| 0 <= j < batch.len() ==> #[trigger] batch[j].1 == elements[start + j],
            decreases end - k,
        {
            let column = random_column(rng);
            batch.push((column, elements[k]));
            k = k + 1;
        }
        let ghost old_r = r@;
        r.push(batch);
        proof {
            assert(r[old_r.len() as int] == batch);
            assert forall|i: int| 0 <= i < old_r.len() implies r[i] == old_r[i] by {}
        }
        start = end;
    }
    proof {
        if start == elements.len() {
        } else {
            assert(r.len() == recipients);
        }
    }
    r
}

/// Select a random column: the column a random 32 bit number selects
fn random_column(rng: &mut Mcg128Xsl64) -> ColumnIndex {
    column_of_draw(random_u32(rng))
}

/// The column a number drawn selects: the number modulo the field's width
///
/// Every column is selected by some number, the column's index among them.
pub fn column_of_draw(n: u32) -> (r: ColumnIndex)
    ensures
        r@ == n as int % FIELD_WIDTH as int,
        n < FIELD_WIDTH ==> r@ == n,
{
    let c = n as usize % (FIELD_WIDTH as usize);
    assert(n < 8 ==> n as int % 8 == n as int) by (nonlinear_arith);
    match ColumnIndex::try_from(c) {
        Ok(c) => c,
        Err(_) => ColumnIndex::leftmost_column(),
    }
}

/// What a player's input asks for during a round
#[derive(Copy, Clone, Debug, PartialEq, Eq, Structural)]
pub enum InputAction {
    /// Pause the game
    Pause,
    /// Resume the paused game
    Resume,
    /// Move the controlled capsule
    Move(Movement),
    /// Drop the controlled capsule by one row
    Drop,
    /// Nothing to do
    Ignore,
}

/// Whether a character is an ASCII control character
pub open spec fn is_ascii_control(c: char) -> bool {
    (c as u32) < 0x20 || c as u32 == 0x7f
}

/// The action a character of input asks for
///
/// While the game runs, `p`, `P` and escape pause it, `s` and `d` move the
/// capsule left and right, `k` and `l` rotate it counterclockwise and
/// clockwise (in either case) and a space drops a controlled capsule. While
/// the game is paused, any other than a control character resumes it.
pub open spec fn spec_input_action(c: char, paused: bool, controlled: bool) -> InputAction {
    if paused {
        if is_ascii_control(c) {
            InputAction::Ignore
        } else {
            InputAction::Resume
        }
    } else if c == 'p' || c == 'P' || c == '\x1b' {
        InputAction::Pause
    } else if c == 's' || c == 'S' {
        InputAction::Move(Movement::Left)
    } else if c == 'd' || c == 'D' {
        InputAction::Move(Movement::Right)
    } else if c == 'k' || c == 'K' {
        InputAction::Move(Movement::RotateCCW)
    } else if c == 'l' || c == 'L' {
        InputAction::Move(Movement::RotateCW)
    } else if c == ' ' && controlled {
        InputAction::Drop
    } else {
        InputAction::Ignore
    }
}

/// Upper and lower case letters ask for the same action
///
/// Whether the game is paused or not and whether a capsule is controlled or
/// not, a lower case letter asks for what the same letter in upper case asks
/// for.
pub proof fn lemma_input_letter_case(c: char, paused: bool, controlled: bool)
    requires
        'a' <= c <= 'z',
    ensures
        spec_input_action(c, paused, controlled) == spec_input_action(
            ((c as u32) - 32) as char,
            paused,
            controlled,
        ),
{
    let u = ((c as u32) - 32) as char;
    assert(0x41 <= u as u32 <= 0x5a);
    assert(c == 'p' <==> u == 'P');
    assert(c == 's' <==> u == 'S');
    assert(c == 'd' <==> u == 'D');
    assert(c == 'k' <==> u == 'K');
    assert(c == 'l' <==> u == 'L');
}

/// The keys of a round
///
/// While the game runs, `p`, `P` and escape pause it, `s` and `S` move the
/// capsule left, `d` and `D` right, `k` and `K` rotate it counter-clockwise,
/// `l` and `L` clockwise, and a space drops a controlled capsule by a row.
/// While it is paused, any character but an ASCII control character resumes
/// it.
pub proof fn lemma_round_keys(paused: bool, controlled: bool, c: char)
    ensures
        spec_input_action('p', false, controlled) == InputAction::Pause,
        spec_input_action('P', false, controlled) == InputAction::Pause,
        spec_input_action('\x1b', false, controlled) == InputAction::Pause,
        spec_input_action('s', false, controlled) == InputAction::Move(Movement::Left),
        spec_input_action('S', false, controlled) == InputAction::Move(Movement::Left),
        spec_input_action('d', false, controlled) == InputAction::Move(Movement::Right),
        spec_input_action('D', false, controlled) == InputAction::Move(Movement::Right),
        spec_input_action('k', false, controlled) == InputAction::Move(Movement::RotateCCW),
        spec_input_action('K', false, controlled) == InputAction::Move(Movement::RotateCCW),
        spec_input_action('l', false, controlled) == InputAction::Move(Movement::RotateCW),
        spec_input_action('L', false, controlled) == InputAction::Move(Movement::RotateCW),
        spec_input_action(' ', false, true) == InputAction::Drop,
        spec_input_action(' ', false, false) == InputAction::Ignore,
        0x20 <= (c as u32) < 0x7f ==> spec_input_action(c, true, controlled) == InputAction::Resume,
        (c as u32) < 0x20 ==> spec_input_action(c, true, controlled) == InputAction::Ignore,
{
}

/// Determine the action a character of input asks for during a round
pub fn input_action(c: char, paused: bool, controlled: bool) -> (r: InputAction)
    ensures
        r == spec_input_action(c, paused, controlled),
        !paused && (c == 'p' || c == 'P' || c == '\x1b') ==> r == InputAction::Pause,
        !paused && (c == 's' || c == 'S') ==> r == InputAction::Move(Movement::Left),
        !paused && (c == 'd' || c == 'D') ==> r == InputAction::Move(Movement::Right),
        !paused && (c == 'k' || c == 'K') ==> r == InputAction::Move(Movement::RotateCCW),
        !paused && (c == 'l' || c == 'L') ==> r == InputAction::Move(Movement::RotateCW),
        !paused && c == ' ' ==> r == if controlled {
            InputAction::Drop
        } else {
            InputAction::Ignore
        },
        paused ==> r == if (c as u32) < 0x20 || c as u32 == 0x7f {
            InputAction::Ignore
        } else {
            InputAction::Resume
        },
{
    if paused {
        let code = c as u32;
        if code < 0x20 || code == 0x7f {
            InputAction::Ignore
        } else {
            InputAction::Resume
        }
    } else if c == 'p' || c == 'P' || c == '\x1b' {
        InputAction::Pause
    } else if c == 's' || c == 'S' {
        InputAction::Move(Movement::Left)
    } else if c == 'd' || c == 'D' {
        InputAction::Move(Movement::Right)
    } else if c == 'k' || c == 'K' {
        InputAction::Move(Movement::RotateCCW)
    } else if c == 'l' || c == 'L' {
        InputAction::Move(Movement::RotateCW)
    } else if c == ' ' && controlled {
        InputAction::Drop
    } else {
        InputAction::Ignore
    }
}

/// A virus appended hits the positions if it lies at one of them.
proof fn lemma_hits_virus_push(
    viruses: Seq<(Position, Colour)>,
    v: (Position, Colour),
    positions: Seq<(int, int)>,
)
    ensures
        hits_virus(viruses.push(v), positions) == (hits_virus(viruses, positions)
            || positions.contains(pos_view(v.0))),
{
    let s = viruses.push(v);
    if hits_virus(viruses, positions) {
        let j = choose|j: int|
            0 <= j < viruses.len() && positions.contains(pos_view(#[trigger] viruses[j].0));
        assert(s[j] == viruses[j]);
    }
    if positions.contains(pos_view(v.0)) {
        assert(s[viruses.len() as int] == v);
    }
    if hits_virus(s, positions) {
        let j = choose|j: int| 0 <= j < s.len() && positions.contains(pos_view(#[trigger] s[j].0));
        if j < viruses.len() {
            assert(s[j] == viruses[j]);
        }
    }
}

/// Check whether the list holds the given position
fn contains_position(positions: &Vec<Position>, pos: Position) -> (r: bool)
    ensures
        r == positions@.map_values(|p: Position| pos_view(p)).contains(pos_view(pos)),
{
    let ghost view = positions@.map_values(|p: Position| pos_view(p));
    let mut i: usize = 0;
    while i < positions.len()
        invariant
            i <= positions.len(),
            view == positions@.map_values(|p: Position| pos_view(p)),
            forall|j: int| 0 <= j < i ==> view[j] != pos_view(pos),
        decreases positions.len() - i,
    {
        let p = positions[i];
        if p.0.index() == pos.0.index() && p.1.index() == pos.1.index() {
            assert(view[i as int] == pos_view(pos));
            return true;
        }
        i = i + 1;
    }
    false
}

/// The colours of the eliminated rows, in order
fn eliminated_colours(eliminated: &Eliminated) -> (r: Vec<Colour>)
    ensures
        r@ == row_colours(eliminated@),
{
    let rows = eliminated.rows_of_four();
    let mut r: Vec<Colour> = Vec::new();
    let mut i: usize = 0;
    while i < rows.len()
        invariant
            i <= rows.len(),
            rows@ == eliminated@,
            r@ == row_colours(rows@.take(i as int)),
        decreases rows.len() - i,
    {
        r.push(rows[i].0);
        assert(row_colours(rows@.take(i + 1)) =~= row_colours(rows@.take(i as int)).push(rows[i as int].0));
        i = i + 1;
    }
    assert(rows@.take(rows.len() as int) =~= rows@);
    r
}

/// Updates clearing the given positions, in order
fn clearing_updates(positions: &Vec<Position>) -> (r: Vec<Update>)
    ensures
        r.len() == positions.len(),
        forall|i: int| 0 <= i < r.len() ==> #[trigger] update_view(r[i]) == (pos_view(positions[i]), None::<Colour>),
{
    let mut r: Vec<Update> = Vec::new();
    let mut i: usize = 0;
    while i < positions.len()
        invariant
            i <= positions.len(),
            r.len() == i,
            forall|j: int| 0 <= j < i ==> #[trigger] update_view(r[j]) == (pos_view(positions[j]), None::<Colour>),
        decreases positions.len() - i,
    {
        r.push((positions[i], None));
        i = i + 1;
    }
    r
}

} // verus!
