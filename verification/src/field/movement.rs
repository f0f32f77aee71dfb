//! Movement function and input types

use vstd::prelude::*;

use crate::util::{
    in_field, neighbour, pos_view, position, spec_neighbour, Colour, ColumnIndex, Direction,
    Position, PotentiallyColoured, RowIndex,
};

use super::items::{CapsuleElement, Update};
use super::moving_field::{MovingField, MovingRowIndex};
use super::static_field::StaticField;
use super::tick::{lemma_moving_consistent_at, moving_consistent, moving_partner, no_overlap};

verus! {

broadcast use crate::util::group_index_bounds;

/// A movement a player may apply to a controlled capsule
#[derive(Copy, Clone, Debug, PartialEq, Eq, Structural)]
pub enum Movement {
    Left,
    Right,
    RotateCW,
    RotateCCW,
}

/// The direction in which `dest` lies from `src`, for adjacent tiles
pub open spec fn spec_direction(src: (int, int), dest: (int, int)) -> Direction {
    if src.0 < dest.0 {
        Direction::Below
    } else if src.0 == dest.0 {
        if src.1 > dest.1 {
            Direction::Left
        } else {
            Direction::Right
        }
    } else {
        Direction::Above
    }
}

/// The neighbour of a tile lies in the direction it was stepped to.
pub proof fn lemma_direction_of_neighbour(p: (int, int), dir: Direction)
    ensures
        spec_direction(p, spec_neighbour(p, dir)) == dir,
{
}

/// Positions of a capsule's elements, at `a` and `b`, after a movement
///
/// The result is `None` if a target lies outside the field.
pub open spec fn spec_targets(movement: Movement, a: (int, int), b: (int, int)) -> Option<
    ((int, int), (int, int)),
> {
    let t = match movement {
        Movement::Left => (spec_neighbour(a, Direction::Left), spec_neighbour(b, Direction::Left)),
        Movement::Right => (spec_neighbour(a, Direction::Right), spec_neighbour(b, Direction::Right)),
        Movement::RotateCW => match spec_direction(a, b) {
            Direction::Left => (a, spec_neighbour(a, Direction::Above)),
            Direction::Right => (spec_neighbour(b, Direction::Above), b),
            Direction::Above => (a, spec_neighbour(a, Direction::Right)),
            Direction::Below => (spec_neighbour(b, Direction::Right), b),
        },
        Movement::RotateCCW => match spec_direction(a, b) {
            Direction::Left => (spec_neighbour(b, Direction::Above), b),
            Direction::Right => (a, spec_neighbour(a, Direction::Above)),
            Direction::Above => (a, spec_neighbour(a, Direction::Left)),
            Direction::Below => (spec_neighbour(b, Direction::Left), b),
        },
    };
    if in_field(t.0) && in_field(t.1) {
        Some(t)
    } else {
        None
    }
}

/// An element as it is after being moved: rotations rotate the partner's direction
pub open spec fn spec_transformed(movement: Movement, e: Option<CapsuleElement>) -> Option<
    CapsuleElement,
> {
    match e {
        Some(el) => Some(
            match movement {
                Movement::RotateCW => el.spec_with_partner(
                    match el.spec_partner() {
                        Some(d) => Some(d.spec_rotated_cw()),
                        None => None,
                    },
                ),
                Movement::RotateCCW => el.spec_with_partner(
                    match el.spec_partner() {
                        Some(d) => Some(d.spec_rotated_ccw()),
                        None => None,
                    },
                ),
                _ => el,
            },
        ),
        None => None,
    }
}

/// Either target tile is occupied in the static field
pub open spec fn blocked(s: &StaticField, t: ((int, int), (int, int))) -> bool {
    s.tile(t.0).spec_is_occupied() || s.tile(t.1).spec_is_occupied()
}

/// The coordinates and colour an update refers to
pub open spec fn update_view(u: Update) -> ((int, int), Option<Colour>) {
    (pos_view(u.0), u.1)
}

/// Handle for a player controlled capsule
///
/// A value of this type represents a player controlled capsule. While its
/// elements occupy tiles in the field of moving elements, this type provides
/// means to control the capsule's movements. It refers to the capsule's
/// anchor, the element in the capsule's lower row (the left one, when the
/// capsule lies horizontally after a spawn).
#[derive(Copy, Clone)]
pub struct ControlledCapsule {
    row: MovingRowIndex,
    column: ColumnIndex,
}

impl ControlledCapsule {
    /// The tracked row holding the capsule's anchor
    pub closed spec fn spec_row(&self) -> MovingRowIndex {
        self.row
    }

    /// The column holding the capsule's anchor
    pub closed spec fn spec_column(&self) -> int {
        self.column@
    }

    /// Coordinates of the capsule's anchor in the given field
    pub open spec fn anchor(&self, m: &MovingField) -> (int, int) {
        (m.spec_row_of(self.spec_row()), self.spec_column())
    }

    /// Direction of the anchor's partner
    pub open spec fn partner_direction(&self, m: &MovingField) -> Direction {
        m.tile(self.anchor(m))->0.spec_partner()->0
    }

    /// Coordinates of the anchor's partner
    pub open spec fn partner(&self, m: &MovingField) -> (int, int) {
        spec_neighbour(self.anchor(m), self.partner_direction(m))
    }

    /// The anchor holds an element bound to a partner within the field
    pub open spec fn is_anchored(&self, m: &MovingField) -> bool {
        &&& m.tile(self.anchor(m)) is Some
        &&& m.tile(self.anchor(m))->0.spec_partner() is Some
        &&& in_field(self.partner(m))
    }

    /// A movement can be applied without the capsule losing its row
    ///
    /// Rotations keep the anchor's row only if the partner does not lie below.
    pub open spec fn can_apply(&self, m: &MovingField, movement: Movement) -> bool {
        &&& self.is_anchored(m)
        &&& (movement == Movement::RotateCW || movement == Movement::RotateCCW)
            ==> self.partner_direction(m) != Direction::Below
    }

    /// The capsule is anchored with its partner not below, so that every
    /// movement can be applied
    pub open spec fn spec_intact(&self, m: &MovingField) -> bool {
        self.is_anchored(m) && self.partner_direction(m) != Direction::Below
    }

    /// The capsule is complete: the anchor and its partner are bound to each
    /// other, and the partner does not lie below the anchor
    pub open spec fn is_complete(&self, m: &MovingField) -> bool {
        &&& self.is_anchored(m)
        &&& self.partner_direction(m) != Direction::Below
        &&& m.tile(self.partner(m)) is Some
        &&& m.tile(self.partner(m))->0.spec_partner() == Some(self.partner_direction(m).opposite())
    }

    /// The outcome of applying a movement to a capsule
    ///
    /// If a target lies outside the field or on an occupied tile of the static
    /// field, nothing changes and there is no result. Otherwise both elements
    /// move to their targets, transformed according to the movement, and the
    /// result lists the updates to apply in order: clearing the old tiles, then
    /// drawing the new ones.
    pub open spec fn move_outcome(
        before: ControlledCapsule,
        after: ControlledCapsule,
        m_before: MovingField,
        m_after: MovingField,
        s: &StaticField,
        movement: Movement,
        r: Option<[Update; 4]>,
    ) -> bool {
        let a = before.anchor(&m_before);
        let b = before.partner(&m_before);
        let t = spec_targets(movement, a, b);
        match r {
            None => {
                &&& t is None || blocked(s, t->0)
                &&& after == before
                &&& m_after == m_before
            },
            Some(u) => {
                let tt = t->0;
                let t0 = tt.0;
                let t1 = tt.1;
                &&& t is Some
                &&& !blocked(s, (t0, t1))
                &&& forall|p: (int, int)| #[trigger]
                    m_after.tile(p) == if p == t1 {
                        spec_transformed(movement, m_before.tile(b))
                    } else if p == t0 {
                        spec_transformed(movement, m_before.tile(a))
                    } else if p == a || p == b {
                        None
                    } else {
                        m_before.tile(p)
                    }
                &&& forall|i: MovingRowIndex| #[trigger]
                    m_after.spec_row_of(i) == m_before.spec_row_of(i)
                &&& after.spec_row() == before.spec_row()
                &&& after.spec_column() == if t0.0 == a.0 {
                    t0.1
                } else {
                    t1.1
                }
                &&& update_view(u[0]) == (a, None::<Colour>)
                &&& update_view(u[1]) == (b, None::<Colour>)
                &&& update_view(u[2]) == (t0, m_before.tile(a).spec_colour())
                &&& update_view(u[3]) == (t1, m_before.tile(b).spec_colour())
            },
        }
    }

    /// Spawn a new player controlled capsule
    ///
    /// Place a new player controlled capsule in the given colours. The new
    /// capsule will be placed in the middle of the (current) top row of the
    /// moving field, the first colour on the left. The function returns the
    /// capsule and the updates drawing its elements.
    pub fn spawn_capsule(moving_field: &mut MovingField, colours: &[Colour; 2]) -> (r: (
        Self,
        [Update; 2],
    ))
        ensures
            final(moving_field).spec_row_of(r.0.spec_row()) == 0,
            r.0.spec_column() == 3,
            forall|p: (int, int)| #[trigger]
                final(moving_field).tile(p) == if p == (0int, 3int) {
                    Some(CapsuleElement::new_spec(colours[0], Some(Direction::Right)))
                } else if p == (0int, 4int) {
                    Some(CapsuleElement::new_spec(colours[1], Some(Direction::Left)))
                } else {
                    old(moving_field).tile(p)
                },
            forall|i: MovingRowIndex| #[trigger]
                final(moving_field).spec_row_of(i) == old(moving_field).spec_row_of(i),
            update_view(r.1[0]) == ((0int, 3int), Some(colours[0])),
            update_view(r.1[1]) == ((0int, 4int), Some(colours[1])),
    {
        let lmid = position(0, 3);
        let rmid = position(0, 4);
        moving_field.set(lmid, Some(CapsuleElement::new(colours[0], Some(Direction::Right))));
        moving_field.set(rmid, Some(CapsuleElement::new(colours[1], Some(Direction::Left))));
        let top = RowIndex::top_row();
        let capsule = ControlledCapsule { row: moving_field.moving_row_index(top), column: lmid.1 };
        (capsule, [(lmid, Some(colours[0])), (rmid, Some(colours[1]))])
    }

    /// Check whether the capsule is anchored with its partner not below
    ///
    /// Every movement can be applied to such a capsule.
    pub fn is_intact(&self, moving_field: &MovingField) -> (r: bool)
        ensures
            r == self.spec_intact(moving_field),
    {
        let row = moving_field.row_index_from_moving(self.row);
        let pos = (row, self.column);
        match moving_field.get(pos) {
            Some(e) => match e.partner() {
                Some(d) => neighbour(pos, d).is_some() && d != Direction::Below,
                None => false,
            },
            None => false,
        }
    }

    /// Retrieve the current "active" row
    ///
    /// This function will return the lowest row containing an element of the
    /// capsule.
    pub fn row(&self) -> (r: MovingRowIndex)
        ensures
            r == self.spec_row(),
    {
        self.row
    }

    /// Apply a movement to the capsule
    ///
    /// The function returns a list of `Update`s which have to be applied in
    /// order. If the movement could not be performed (e.g. because a target
    /// tile is occupied), the function returns `None`.
    pub fn apply_move(
        &mut self,
        moving_field: &mut MovingField,
        static_field: &StaticField,
        movement: Movement,
    ) -> (r: Option<[Update; 4]>)
        requires
            old(self).can_apply(&*old(moving_field), movement),
        ensures
            ControlledCapsule::move_outcome(
                *old(self),
                *final(self),
                *old(moving_field),
                *final(moving_field),
                static_field,
                movement,
                r,
            ),
    {
        match movement {
            Movement::Left => self.move_left(moving_field, static_field),
            Movement::Right => self.move_right(moving_field, static_field),
            Movement::RotateCW => self.rotate_cw(moving_field, static_field),
            Movement::RotateCCW => self.rotate_ccw(moving_field, static_field),
        }
    }

    /// Move the capsule to the left
    ///
    /// The function returns a list of `Update`s which have to be applied in
    /// order. If the movement could not be performed (e.g. because a target
    /// tile is occupied), the function returns `None`.
    pub fn move_left(&mut self, moving_field: &mut MovingField, static_field: &StaticField) -> (r:
        Option<[Update; 4]>)
        requires
            old(self).is_anchored(&*old(moving_field)),
        ensures
            ControlledCapsule::move_outcome(
                *old(self),
                *final(self),
                *old(moving_field),
                *final(moving_field),
                static_field,
                Movement::Left,
                r,
            ),
    {
        self.move_elements(moving_field, static_field, Movement::Left)
    }

    /// Move the capsule to the right
    ///
    /// The function returns a list of `Update`s which have to be applied in
    /// order. If the movement could not be performed (e.g. because a target
    /// tile is occupied), the function returns `None`.
    pub fn move_right(&mut self, moving_field: &mut MovingField, static_field: &StaticField) -> (r:
        Option<[Update; 4]>)
        requires
            old(self).is_anchored(&*old(moving_field)),
        ensures
            ControlledCapsule::move_outcome(
                *old(self),
                *final(self),
                *old(moving_field),
                *final(moving_field),
                static_field,
                Movement::Right,
                r,
            ),
    {
        self.move_elements(moving_field, static_field, Movement::Right)
    }

    /// Rotate the capsule clockwise
    ///
    /// The function returns a list of `Update`s which have to be applied in
    /// order. If the movement could not be performed (e.g. because a target
    /// tile is occupied), the function returns `None`.
    pub fn rotate_cw(&mut self, moving_field: &mut MovingField, static_field: &StaticField) -> (r:
        Option<[Update; 4]>)
        requires
            old(self).can_apply(&*old(moving_field), Movement::RotateCW),
        ensures
            ControlledCapsule::move_outcome(
                *old(self),
                *final(self),
                *old(moving_field),
                *final(moving_field),
                static_field,
                Movement::RotateCW,
                r,
            ),
    {
        self.move_elements(moving_field, static_field, Movement::RotateCW)
    }

    /// Rotate the capsule counterclockwise
    ///
    /// The function returns a list of `Update`s which have to be applied in
    /// order. If the movement could not be performed (e.g. because a target
    /// tile is occupied), the function returns `None`.
    pub fn rotate_ccw(&mut self, moving_field: &mut MovingField, static_field: &StaticField) -> (r:
        Option<[Update; 4]>)
        requires
            old(self).can_apply(&*old(moving_field), Movement::RotateCCW),
        ensures
            ControlledCapsule::move_outcome(
                *old(self),
                *final(self),
                *old(moving_field),
                *final(moving_field),
                static_field,
                Movement::RotateCCW,
                r,
            ),
    {
        self.move_elements(moving_field, static_field, Movement::RotateCCW)
    }

    /// Internal utility function for performing the move
    ///
    /// This function moves both elements to the positions given by
    /// `target_positions` and transforms them via `transform_element`.
    fn move_elements(
        &mut self,
        moving_field: &mut MovingField,
        static_field: &StaticField,
        movement: Movement,
    ) -> (r: Option<[Update; 4]>)
        requires
            old(self).can_apply(&*old(moving_field), movement),
        ensures
            ControlledCapsule::move_outcome(
                *old(self),
                *final(self),
                *old(moving_field),
                *final(moving_field),
                static_field,
                movement,
                r,
            ),
    {
        let ghost m0 = *moving_field;
        let ghost a = self.anchor(&m0);
        let ghost b = self.partner(&m0);
        let row = moving_field.row_index_from_moving(self.row);
        let pos_a = (row, self.column);
        let anchor = moving_field.get(pos_a).unwrap();
        let dir = anchor.partner().unwrap();
        let pos_b = neighbour(pos_a, dir).unwrap();
        assert(pos_view(pos_a) == a);
        assert(pos_view(pos_b) == b);

        let tpos = match target_positions(movement, pos_a, pos_b) {
            Some(t) => t,
            None => return None,
        };
        if static_field.get(tpos.0).is_occupied() || static_field.get(tpos.1).is_occupied() {
            return None;
        }
        let element_a = moving_field.take(pos_a);
        let element_b = moving_field.take(pos_b);
        let colour_a = element_a.colour();
        let colour_b = element_b.colour();
        moving_field.set(tpos.0, transform_element(movement, element_a));
        moving_field.set(tpos.1, transform_element(movement, element_b));
        self.column = if tpos.0.0.index() == row.index() {
            tpos.0.1
        } else {
            tpos.1.1
        };
        Some([(pos_a, None), (pos_b, None), (tpos.0, colour_a), (tpos.1, colour_b)])
    }
}

/// Compute the positions of a capsule's elements after a movement
fn target_positions(movement: Movement, a: Position, b: Position) -> (r: Option<
    (Position, Position),
>)
    ensures
        r is Some <==> spec_targets(movement, pos_view(a), pos_view(b)) is Some,
        r matches Some(t) ==> (pos_view(t.0), pos_view(t.1)) == spec_targets(
            movement,
            pos_view(a),
            pos_view(b),
        )->0,
{
    let pair = match movement {
        Movement::Left => (neighbour(a, Direction::Left), neighbour(b, Direction::Left)),
        Movement::Right => (neighbour(a, Direction::Right), neighbour(b, Direction::Right)),
        Movement::RotateCW => match direction(a, b) {
            Direction::Left => (Some(a), neighbour(a, Direction::Above)),
            Direction::Right => (neighbour(b, Direction::Above), Some(b)),
            Direction::Above => (Some(a), neighbour(a, Direction::Right)),
            Direction::Below => (neighbour(b, Direction::Right), Some(b)),
        },
        Movement::RotateCCW => match direction(a, b) {
            Direction::Left => (neighbour(b, Direction::Above), Some(b)),
            Direction::Right => (Some(a), neighbour(a, Direction::Above)),
            Direction::Above => (Some(a), neighbour(a, Direction::Left)),
            Direction::Below => (neighbour(b, Direction::Left), Some(b)),
        },
    };
    match pair {
        (Some(x), Some(y)) => Some((x, y)),
        _ => None,
    }
}

/// Transform an element according to a movement
fn transform_element(movement: Movement, element: Option<CapsuleElement>) -> (r: Option<
    CapsuleElement,
>)
    ensures
        r == spec_transformed(movement, element),
{
    match element {
        Some(e) => {
            let mut e = e;
            match movement {
                Movement::RotateCW => {
                    let partner = match e.partner() {
                        Some(d) => Some(d.rotated_cw()),
                        None => None,
                    };
                    e.set_partner(partner);
                },
                Movement::RotateCCW => {
                    let partner = match e.partner() {
                        Some(d) => Some(d.rotated_ccw()),
                        None => None,
                    };
                    e.set_partner(partner);
                },
                _ => {},
            }
            Some(e)
        },
        None => None,
    }
}

/// Determine the direction a position lies from another
///
/// This function returns the direction that `dest` lies from `src` under the
/// assumption that the corresponding tiles are adjacent.
fn direction(src: Position, dest: Position) -> (r: Direction)
    ensures
        r == spec_direction(pos_view(src), pos_view(dest)),
{
    let src_row = src.0.index();
    let dest_row = dest.0.index();
    if src_row < dest_row {
        Direction::Below
    } else if src_row == dest_row {
        if src.1.index() > dest.1.index() {
            Direction::Left
        } else {
            Direction::Right
        }
    } else {
        Direction::Above
    }
}

/// Moving a complete capsule keeps it complete and keeps the moving field
/// consistent and free of overlaps with the static field.
///
/// This holds as long as the tiles the capsule moves to hold no other element
/// of the moving field.
pub proof fn lemma_move_keeps_consistency(
    before: ControlledCapsule,
    after: ControlledCapsule,
    m_before: MovingField,
    m_after: MovingField,
    s: StaticField,
    movement: Movement,
    r: Option<[Update; 4]>,
)
    requires
        before.is_complete(&m_before),
        moving_consistent(&m_before),
        no_overlap(&s, &m_before),
        ControlledCapsule::move_outcome(before, after, m_before, m_after, &s, movement, r),
        spec_targets(movement, before.anchor(&m_before), before.partner(&m_before)) matches Some(
            t,
        ) ==> {
            &&& (m_before.tile(t.0) is None || t.0 == before.anchor(&m_before) || t.0
                == before.partner(&m_before))
            &&& (m_before.tile(t.1) is None || t.1 == before.anchor(&m_before) || t.1
                == before.partner(&m_before))
        },
    ensures
        after.is_complete(&m_after),
        moving_consistent(&m_after),
        no_overlap(&s, &m_after),
{
    broadcast use CapsuleElement::lemma_with_partner;

    if r is Some {
        let a = before.anchor(&m_before);
        let b = before.partner(&m_before);
        let d = before.partner_direction(&m_before);
        let tt = spec_targets(movement, a, b)->0;
        let t0 = tt.0;
        let t1 = tt.1;
        lemma_direction_of_neighbour(a, d);
        let ea = m_before.tile(a)->0;
        let eb = m_before.tile(b)->0;
        assert(t0 != t1);
        assert(m_after.tile(t0) == spec_transformed(movement, Some(ea)));
        assert(m_after.tile(t1) == spec_transformed(movement, Some(eb)));
        assert(m_after.spec_row_of(after.spec_row()) == a.0);
        reveal(moving_consistent);
        assert forall|p: (int, int)|
            in_field(p) && #[trigger] moving_partner(&m_after, p) is Some implies {
            let dp = m_after.tile(p)->0.spec_partner()->0;
            let q = spec_neighbour(p, dp);
            &&& in_field(q)
            &&& m_after.tile(q) is Some
            &&& m_after.tile(q)->0.spec_partner() == Some(dp.opposite())
        } by {
            if p != t0 && p != t1 {
                assert(m_after.tile(p) == m_before.tile(p));
                assert(moving_partner(&m_before, p) is Some);
                lemma_moving_consistent_at(&m_before, p);
                let q = spec_neighbour(p, m_before.tile(p)->0.spec_partner()->0);
                if q == a {
                    assert(p == b);
                } else if q == b {
                    lemma_moving_consistent_at(&m_before, a);
                    assert(p == a);
                } else {
                    assert(m_after.tile(q) == m_before.tile(q));
                }
            }
        }
        assert forall|p: (int, int)| #[trigger] m_after.tile(p) is Some implies !s.tile(
            p,
        ).spec_is_occupied() by {
            if p != t0 && p != t1 {
                assert(m_after.tile(p) == m_before.tile(p));
            }
        }
    }
}

/// The row of a complete capsule is the lowest row holding one of its
/// elements: its anchor's, with the partner beside or above.
///
/// Moves keep a capsule complete (`lemma_move_keeps_consistency`), and so
/// does moving it down with the field, so this holds over any sequence of
/// moves and ticks without settling.
pub proof fn lemma_row_is_lowest(c: ControlledCapsule, m: MovingField)
    requires
        c.is_complete(&m),
    ensures
        m.spec_row_of(c.spec_row()) == c.anchor(&m).0,
        c.partner(&m).0 <= c.anchor(&m).0,
        c.partner(&m).0 == c.anchor(&m).0 || c.partner(&m).0 == c.anchor(&m).0 - 1,
{
}

/// The updates returned for a move describe the field after the move.
///
/// Applied in order, each update's colour is the colour of its tile after the
/// move: the last update for a tile gives that tile's colour.
pub proof fn lemma_move_updates(
    before: ControlledCapsule,
    after: ControlledCapsule,
    m_before: MovingField,
    m_after: MovingField,
    s: StaticField,
    movement: Movement,
    u: [Update; 4],
)
    requires
        ControlledCapsule::move_outcome(before, after, m_before, m_after, &s, movement, Some(u)),
    ensures
        forall|i: int|
            0 <= i < 4 && (forall|j: int| i < j < 4 ==> pos_view(u[j].0) != pos_view(u[i].0)) ==> m_after.tile(
                pos_view(#[trigger] u[i].0),
            ).spec_colour() == u[i].1,
{
    broadcast use CapsuleElement::lemma_with_partner;

    let a = before.anchor(&m_before);
    let b = before.partner(&m_before);
    let tt = spec_targets(movement, a, b)->0;
    assert forall|i: int|
        0 <= i < 4 && (forall|j: int| i < j < 4 ==> pos_view(u[j].0) != pos_view(u[i].0)) implies m_after.tile(
        pos_view(#[trigger] u[i].0),
    ).spec_colour() == u[i].1 by {
        if i == 0 {
            assert(pos_view(u[0].0) != pos_view(u[2].0) && pos_view(u[0].0) != pos_view(u[3].0));
            assert(pos_view(u[0].0) != tt.0);
            assert(pos_view(u[0].0) != tt.1);
        } else if i == 1 {
            assert(pos_view(u[1].0) != pos_view(u[2].0) && pos_view(u[1].0) != pos_view(u[3].0));
            assert(pos_view(u[1].0) != tt.0);
            assert(pos_view(u[1].0) != tt.1);
        } else if i == 2 {
            assert(pos_view(u[2].0) != pos_view(u[3].0));
            assert(pos_view(u[2].0) != tt.1);
        }
    }
}

/// The movement undoing another one
pub open spec fn spec_inverse(movement: Movement) -> Movement {
    match movement {
        Movement::Left => Movement::Right,
        Movement::Right => Movement::Left,
        Movement::RotateCW => Movement::RotateCCW,
        Movement::RotateCCW => Movement::RotateCW,
    }
}

/// A movement followed by its inverse restores the moving field.
///
/// If a complete capsule is moved and then moved back, every tile of the
/// moving field holds what it held before, as long as the first movement did
/// not move the capsule onto another element. After moving left and right, or
/// right and left, the capsule is anchored where it was.
pub proof fn lemma_move_undone(
    before: ControlledCapsule,
    mid: ControlledCapsule,
    after: ControlledCapsule,
    m0: MovingField,
    m1: MovingField,
    m2: MovingField,
    s: StaticField,
    movement: Movement,
    u1: [Update; 4],
    u2: [Update; 4],
)
    requires
        before.is_complete(&m0),
        ControlledCapsule::move_outcome(before, mid, m0, m1, &s, movement, Some(u1)),
        ControlledCapsule::move_outcome(mid, after, m1, m2, &s, spec_inverse(movement), Some(u2)),
        spec_targets(movement, before.anchor(&m0), before.partner(&m0)) matches Some(t) ==> {
            &&& (m0.tile(t.0) is None || t.0 == before.anchor(&m0) || t.0 == before.partner(&m0))
            &&& (m0.tile(t.1) is None || t.1 == before.anchor(&m0) || t.1 == before.partner(&m0))
        },
    ensures
        forall|p: (int, int)| #[trigger] m2.tile(p) == m0.tile(p),
        movement == Movement::Left || movement == Movement::Right ==> after.spec_row()
            == before.spec_row() && after.spec_column() == before.spec_column(),
{
    broadcast use CapsuleElement::lemma_with_partner;

    let a = before.anchor(&m0);
    let b = before.partner(&m0);
    let d = before.partner_direction(&m0);
    let tt = spec_targets(movement, a, b)->0;
    let t0 = tt.0;
    let t1 = tt.1;
    lemma_direction_of_neighbour(a, d);
    let ea = m0.tile(a)->0;
    let eb = m0.tile(b)->0;
    assert(m1.tile(t0) == spec_transformed(movement, Some(ea)));
    assert(m1.tile(t1) == spec_transformed(movement, Some(eb)));
    assert(m1.spec_row_of(mid.spec_row()) == a.0);
    let a1 = mid.anchor(&m1);
    let b1 = mid.partner(&m1);
    lemma_direction_of_neighbour(a1, mid.partner_direction(&m1));
    assert(a1 == t0 || a1 == t1);
    assert(b1 == t0 || b1 == t1);
    let tt2 = spec_targets(spec_inverse(movement), a1, b1)->0;
    assert((tt2.0 == a && tt2.1 == b) || (tt2.0 == b && tt2.1 == a));
    let inv = spec_inverse(movement);
    let ra = spec_transformed(inv, spec_transformed(movement, Some(ea)));
    let rb = spec_transformed(inv, spec_transformed(movement, Some(eb)));
    super::items::lemma_element_ext(ra->0, ea);
    super::items::lemma_element_ext(rb->0, eb);
    assert(m2.tile(a) == Some(ea));
    assert(m2.tile(b) == Some(eb));
    assert forall|p: (int, int)| #[trigger] m2.tile(p) == m0.tile(p) by {
        if p != a && p != b && p != t0 && p != t1 {
            assert(m2.tile(p) == m1.tile(p));
            assert(m1.tile(p) == m0.tile(p));
        }
    }
}

} // verus!
