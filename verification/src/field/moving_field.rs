//! Definition of the moving field and associated types

use vstd::prelude::*;

use crate::util::{
    in_field, pos_view, position, Colour, ColumnIndex, Position, PotentiallyColoured, RowIndex,
    FIELD_HEIGHT, FIELD_WIDTH,
};

use super::items::{CapsuleElement, Update};

verus! {

broadcast use crate::util::group_index_bounds;

/// Index for a moving row
///
/// Indexes of this kind refer to one row in the field of moving rows. The row
/// will be tracked across invocations of `MovingField::tick`, i.e. as it moves
/// down the field.
#[derive(Copy, Clone, Debug, PartialEq, Eq, Structural)]
pub struct MovingRowIndex {
    row: usize,
}

impl MovingRowIndex {
    #[verifier::type_invariant]
    spec fn inv(self) -> bool {
        self.row < FIELD_HEIGHT
    }

    /// The row's index in the internal list of rows
    pub closed spec fn spec_internal(&self) -> int {
        (self.row % 16) as int
    }

    fn internal(&self) -> (r: usize)
        ensures
            r == self.spec_internal(),
            r < FIELD_HEIGHT,
    {
        proof {
            use_type_invariant(self);
        }
        self.row
    }
}

/// Position, in processing order, of a tile when emitting updates after a tick
///
/// Tiles are processed row by row from the bottom to the top, each row from the
/// left to the right.
pub open spec fn tick_order(p: (int, int)) -> int {
    (FIELD_HEIGHT - 1 - p.0) * FIELD_WIDTH + p.1
}

/// Every element and every tracked row of `before` moved down by one row, the
/// bottom row to the top
pub open spec fn shifted_down(before: &MovingField, after: &MovingField) -> bool {
    &&& forall|p: (int, int)|
        in_field(p) ==> #[trigger] after.tile(p) == before.tile(
            ((p.0 + FIELD_HEIGHT - 1) % (FIELD_HEIGHT as int), p.1),
        )
    &&& forall|i: MovingRowIndex| #[trigger]
        after.spec_row_of(i) == (before.spec_row_of(i) + 1) % (FIELD_HEIGHT as int)
}

/// Field of unsettled/moving elements
pub struct MovingField {
    data: Vec<Option<CapsuleElement>>,
    offset: usize,
}

impl MovingField {
    #[verifier::type_invariant]
    spec fn inv(self) -> bool {
        &&& self.data.len() == FIELD_HEIGHT * FIELD_WIDTH
        &&& self.offset < FIELD_HEIGHT
    }

    /// Index of the internal row holding the given (mapped) row
    pub closed spec fn spec_transform(&self, row: int) -> int {
        (row + self.offset) % (FIELD_HEIGHT as int)
    }

    /// The element on the tile at the given coordinates, if any
    ///
    /// Coordinates outside the field denote free tiles.
    pub closed spec fn tile(&self, p: (int, int)) -> Option<CapsuleElement> {
        if in_field(p) {
            self.data@[self.spec_transform(p.0) * FIELD_WIDTH + p.1]
        } else {
            None
        }
    }

    /// The (mapped) row currently identified by a moving row index
    pub closed spec fn spec_row_of(&self, index: MovingRowIndex) -> int {
        (index.spec_internal() + FIELD_HEIGHT - self.offset) % (FIELD_HEIGHT as int)
    }

    /// Tiles outside the field are free
    pub broadcast proof fn lemma_tile_outside(&self, p: (int, int))
        ensures
            !in_field(p) ==> #[trigger] self.tile(p) is None,
    {
    }

    /// Whether an update needs to be emitted for a tile after a tick
    ///
    /// Occupied tiles are drawn. Free tiles are only cleared if the tile below
    /// is occupied, since the element previously drawn there moved down.
    pub open spec fn needs_update(&self, p: (int, int)) -> bool {
        ||| self.tile(p) is Some
        ||| (p.0 + 1 < FIELD_HEIGHT && self.tile((p.0 + 1, p.1)) is Some)
    }

    /// Create an empty field
    pub fn new() -> (r: Self)
        ensures
            forall|p: (int, int)| #[trigger] r.tile(p) is None,
    {
        let mut data: Vec<Option<CapsuleElement>> = Vec::new();
        let mut i: usize = 0;
        while i < (FIELD_HEIGHT as usize) * (FIELD_WIDTH as usize)
            invariant
                i <= FIELD_HEIGHT * FIELD_WIDTH,
                data.len() == i,
                forall|j: int| 0 <= j < i ==> #[trigger] data[j] is None,
            decreases FIELD_HEIGHT * FIELD_WIDTH - i,
        {
            data.push(None);
            i = i + 1;
        }
        MovingField { data, offset: 0 }
    }

    /// Compute the index of a tile in the internal list
    fn offset_of(&self, pos: Position) -> (r: usize)
        ensures
            r < FIELD_HEIGHT * FIELD_WIDTH,
            r == self.spec_transform(pos_view(pos).0) * FIELD_WIDTH + pos_view(pos).1,
            in_field(pos_view(pos)),
        no_unwind
    {
        proof {
            use_type_invariant(self);
        }
        let r = self.transform(pos.0);
        let c = pos.1.index();
        assert(r * 8 + c < 128) by (nonlinear_arith)
            requires
                r < 16,
                c < 8,
        ;
        r * 8 + c
    }

    /// Retrieve the element at the given position, if any
    pub fn get(&self, pos: Position) -> (r: Option<CapsuleElement>)
        ensures
            r == self.tile(pos_view(pos)),
    {
        proof {
            use_type_invariant(self);
        }
        let i = self.offset_of(pos);
        self.data[i]
    }

    /// Place the given element, or none, at the given position
    pub fn set(&mut self, pos: Position, element: Option<CapsuleElement>)
        ensures
            forall|p: (int, int)| #[trigger]
                final(self).tile(p) == if p == pos_view(pos) {
                    element
                } else {
                    old(self).tile(p)
                },
            forall|i: MovingRowIndex| #[trigger]
                final(self).spec_row_of(i) == old(self).spec_row_of(i),
        no_unwind
    {
        proof {
            use_type_invariant(&*self);
        }
        let i = self.offset_of(pos);
        self.data[i] = element;
        assert forall|p: (int, int)| #[trigger]
            self.tile(p) == if p == pos_view(pos) {
                element
            } else {
                old(self).tile(p)
            } by {
            if in_field(p) && p != pos_view(pos) {
                assert(self.spec_transform(p.0) * 8 + p.1 != i) by (nonlinear_arith)
                    requires
                        0 <= self.spec_transform(p.0) < 16,
                        0 <= self.spec_transform(pos_view(pos).0) < 16,
                        0 <= p.1 < 8,
                        0 <= pos_view(pos).1 < 8,
                        i == self.spec_transform(pos_view(pos).0) * 8 + pos_view(pos).1,
                        p.1 != pos_view(pos).1 || self.spec_transform(p.0) != self.spec_transform(
                            pos_view(pos).0,
                        ),
                ;
            }
        }
    }

    /// Take the element at the given position, leaving the tile free
    pub fn take(&mut self, pos: Position) -> (r: Option<CapsuleElement>)
        ensures
            r == old(self).tile(pos_view(pos)),
            forall|p: (int, int)| #[trigger]
                final(self).tile(p) == if p == pos_view(pos) {
                    None
                } else {
                    old(self).tile(p)
                },
            forall|i: MovingRowIndex| #[trigger]
                final(self).spec_row_of(i) == old(self).spec_row_of(i),
    {
        let r = self.get(pos);
        self.set(pos, None);
        r
    }

    /// Move all elements down one position
    ///
    /// Elements in the bottom row reappear in the top row. The function returns
    /// a list of `Update`s reflecting the change: for each occupied tile, the
    /// element is drawn, and each free tile above an occupied one is cleared.
    /// The updates are ordered from the bottom row to the top row, each row
    /// from left to right.
    pub fn tick(&mut self) -> (updates: Vec<Update>)
        ensures
            shifted_down(&*old(self), &*final(self)),
            forall|i: int|
                0 <= i < updates.len() ==> {
                    &&& in_field(#[trigger] pos_view(updates[i].0))
                    &&& final(self).needs_update(pos_view(updates[i].0))
                    &&& updates[i].1 == final(self).tile(pos_view(updates[i].0)).spec_colour()
                },
            forall|i: int, j: int|
                0 <= i < j < updates.len() ==> tick_order(pos_view(#[trigger] updates[i].0))
                    < tick_order(pos_view(#[trigger] updates[j].0)),
            forall|p: (int, int)|
                in_field(p) && #[trigger] final(self).needs_update(p) ==> exists|i: int|
                    0 <= i < updates.len() && #[trigger] pos_view(updates[i].0) == p,
    {
        proof {
            use_type_invariant(&*self);
        }
        self.offset = if self.offset == 0 {
            FIELD_HEIGHT as usize - 1
        } else {
            self.offset - 1
        };
        assert forall|p: (int, int)|
            in_field(p) implies #[trigger] self.tile(p) == old(self).tile(
                ((p.0 + FIELD_HEIGHT - 1) % (FIELD_HEIGHT as int), p.1),
            ) by {
            let q = ((p.0 + FIELD_HEIGHT - 1) % (FIELD_HEIGHT as int), p.1);
            lemma_shift(p.0, old(self).offset as int);
            assert(in_field(q));
            assert(self.spec_transform(p.0) == old(self).spec_transform(q.0));
        }
        assert forall|i: MovingRowIndex| #[trigger]
            self.spec_row_of(i) == (old(self).spec_row_of(i) + 1) % (FIELD_HEIGHT as int) by {
            lemma_shift_back(i.spec_internal(), old(self).offset as int);
        }
        self.tick_updates()
    }

    /// Compute the updates to emit after a tick
    fn tick_updates(&self) -> (updates: Vec<Update>)
        ensures
            forall|i: int|
                0 <= i < updates.len() ==> {
                    &&& in_field(#[trigger] pos_view(updates[i].0))
                    &&& self.needs_update(pos_view(updates[i].0))
                    &&& updates[i].1 == self.tile(pos_view(updates[i].0)).spec_colour()
                },
            forall|i: int, j: int|
                0 <= i < j < updates.len() ==> tick_order(pos_view(#[trigger] updates[i].0))
                    < tick_order(pos_view(#[trigger] updates[j].0)),
            forall|p: (int, int)|
                in_field(p) && #[trigger] self.needs_update(p) ==> exists|i: int|
                    0 <= i < updates.len() && #[trigger] pos_view(updates[i].0) == p,
    {
        let mut updates: Vec<Update> = Vec::new();
        let mut k: usize = 0;
        while k < (FIELD_HEIGHT as usize) * (FIELD_WIDTH as usize)
            invariant
                k <= FIELD_HEIGHT * FIELD_WIDTH,
                forall|i: int|
                    0 <= i < updates.len() ==> {
                        &&& in_field(#[trigger] pos_view(updates[i].0))
                        &&& self.needs_update(pos_view(updates[i].0))
                        &&& updates[i].1 == self.tile(pos_view(updates[i].0)).spec_colour()
                        &&& tick_order(pos_view(updates[i].0)) < k
                    },
                forall|i: int, j: int|
                    0 <= i < j < updates.len() ==> tick_order(pos_view(#[trigger] updates[i].0))
                        < tick_order(pos_view(#[trigger] updates[j].0)),
                forall|p: (int, int)|
                    in_field(p) && #[trigger] self.needs_update(p) && tick_order(p) < k
                        ==> exists|i: int|
                        0 <= i < updates.len() && #[trigger] pos_view(updates[i].0) == p,
            decreases FIELD_HEIGHT * FIELD_WIDTH - k,
        {
            let r = FIELD_HEIGHT as usize - 1 - k / (FIELD_WIDTH as usize);
            let c = k % (FIELD_WIDTH as usize);
            let pos = position(r, c);
            let ghost p = pos_view(pos);
            assert(tick_order(p) == k);
            let tile = self.get(pos);
            let ghost old_updates = updates@;
            match tile {
                Some(e) => {
                    updates.push((pos, Some(e.colour())));
                },
                None => {
                    if r + 1 < FIELD_HEIGHT as usize {
                        if self.get(position(r + 1, c)).is_some() {
                            updates.push((pos, None));
                        }
                    }
                },
            }
            assert forall|q: (int, int)|
                in_field(q) && #[trigger] self.needs_update(q) && tick_order(q) < k + 1
                    implies exists|i: int|
                    0 <= i < updates.len() && #[trigger] pos_view(updates[i].0) == q by {
                if q == p {
                    assert(pos_view(updates[updates.len() - 1].0) == q);
                } else {
                    assert(tick_order(q) < k) by {
                        assert(tick_order(q) != tick_order(p));
                    }
                    let i = choose|i: int|
                        0 <= i < old_updates.len() && #[trigger] pos_view(old_updates[i].0) == q;
                    assert(updates[i] == old_updates[i]);
                }
            }
            k = k + 1;
        }
        updates
    }

    /// Spawn single capsules in the current top row
    ///
    /// For each item of `capsules`, this function creates a single, unbound
    /// capsule element with the given colour and places it in the top row at the
    /// given column. It returns a list of `Update`s reflecting the changes.
    pub fn spawn_single_capsules(&mut self, capsules: Vec<(ColumnIndex, Colour)>) -> (updates: Vec<
        Update,
    >)
        ensures
            forall|p: (int, int)|
                in_field(p) && p.0 != 0 ==> #[trigger] final(self).tile(p) == old(self).tile(p),
            forall|c: int|
                0 <= c < FIELD_WIDTH ==> #[trigger] final(self).tile((0, c)) == match last_capsule_at(
                    capsules@,
                    c,
                ) {
                    Some(col) => Some(CapsuleElement::single_spec(col)),
                    None => old(self).tile((0, c)),
                },
            forall|i: MovingRowIndex| #[trigger]
                final(self).spec_row_of(i) == old(self).spec_row_of(i),
            updates.len() == capsules.len(),
            forall|i: int|
                #![trigger updates[i]]
                0 <= i < updates.len() ==> pos_view(updates[i].0) == (0int, capsules[i].0@)
                    && updates[i].1 == Some(capsules[i].1),
    {
        let mut updates: Vec<Update> = Vec::new();
        let mut i: usize = 0;
        while i < capsules.len()
            invariant
                i <= capsules.len(),
                updates.len() == i,
                forall|p: (int, int)|
                    in_field(p) && p.0 != 0 ==> #[trigger] self.tile(p) == old(self).tile(p),
                forall|c: int|
                    0 <= c < FIELD_WIDTH ==> #[trigger] self.tile((0, c)) == match last_capsule_at(
                        capsules@.take(i as int),
                        c,
                    ) {
                        Some(col) => Some(CapsuleElement::single_spec(col)),
                        None => old(self).tile((0, c)),
                    },
                forall|j: MovingRowIndex| #[trigger]
                    self.spec_row_of(j) == old(self).spec_row_of(j),
                forall|j: int|
                    #![trigger updates[j]]
                    0 <= j < i ==> pos_view(updates[j].0) == (0int, capsules[j].0@)
                        && updates[j].1 == Some(capsules[j].1),
            decreases capsules.len() - i,
        {
            let (column, colour) = capsules[i];
            let pos = (RowIndex::top_row(), column);
            self.set(pos, Some(CapsuleElement::new_single(colour)));
            updates.push((pos, Some(colour)));
            assert(capsules@.take(i + 1).drop_last() =~= capsules@.take(i as int));
            i = i + 1;
        }
        assert(capsules@.take(capsules.len() as int) =~= capsules@);
        updates
    }

    /// Crate a MovingRowIndex for a given mapped row
    pub fn moving_row_index(&self, row: RowIndex) -> (r: MovingRowIndex)
        ensures
            self.spec_row_of(r) == row@,
    {
        proof {
            use_type_invariant(self);
        }
        let r = MovingRowIndex { row: self.transform(row) };
        assert(r.spec_internal() == self.spec_transform(row@));
        r
    }

    /// Convert a MovingRowIndex back to a RowIndex
    pub fn row_index_from_moving(&self, index: MovingRowIndex) -> (r: RowIndex)
        ensures
            r@ == self.spec_row_of(index),
    {
        proof {
            use_type_invariant(self);
        }
        let i = index.internal();
        let v = (i + FIELD_HEIGHT as usize - self.offset) % (FIELD_HEIGHT as usize);
        match RowIndex::try_from(v) {
            Ok(r) => r,
            Err(_) => RowIndex::top_row(),
        }
    }

    /// Transform a `RowIndex` to the row's index in the internal array
    fn transform(&self, row: RowIndex) -> (r: usize)
        ensures
            r == self.spec_transform(row@),
            r < FIELD_HEIGHT,
        no_unwind
    {
        proof {
            use_type_invariant(self);
        }
        (row.index() + self.offset) % (FIELD_HEIGHT as usize)
    }
}

/// Moving the offset back by one shifts the mapping of rows down by one.
proof fn lemma_shift(r: int, off: int)
    requires
        0 <= r < 16,
        0 <= off < 16,
    ensures
        (r + (if off == 0 { 15 } else { off - 1 })) % 16 == (((r + 15) % 16) + off) % 16,
{
}

/// Moving the offset back by one shifts tracked rows down by one.
proof fn lemma_shift_back(x: int, off: int)
    requires
        0 <= x < 16,
        0 <= off < 16,
    ensures
        (x + 16 - (if off == 0 { 15 } else { off - 1 })) % 16 == ((x + 16 - off) % 16 + 1) % 16,
{
}

/// The colour of the last capsule spawned in column `c` by `capsules`, if any
pub open spec fn last_capsule_at(capsules: Seq<(ColumnIndex, Colour)>, c: int) -> Option<Colour>
    decreases capsules.len(),
{
    if capsules.len() == 0 {
        None
    } else if capsules.last().0@ == c {
        Some(capsules.last().1)
    } else {
        last_capsule_at(capsules.drop_last(), c)
    }
}

/// An element stays in its tracked row when the rows move down.
pub proof fn lemma_tick_keeps_tracked_rows(
    before: MovingField,
    after: MovingField,
    index: MovingRowIndex,
    column: int,
)
    requires
        shifted_down(&before, &after),
        0 <= column < FIELD_WIDTH,
    ensures
        after.tile((after.spec_row_of(index), column)) == before.tile(
            (before.spec_row_of(index), column),
        ),
{
    let r = before.spec_row_of(index);
    assert(0 <= r < FIELD_HEIGHT);
    let q = (after.spec_row_of(index), column);
    assert(in_field(q));
    assert((q.0 + FIELD_HEIGHT - 1) % (FIELD_HEIGHT as int) == r);
}

/// A moving row index follows its row down the field
///
/// Over any sequence of fields, each the one before with every element and
/// every tracked row moved down one row (the bottom row to the top), a moving
/// row index identifies, after `k` such moves, the row it identified first
/// moved down by `k` rows, wrapping around from the bottom row to the top,
/// and that row holds the elements the first one held.
pub proof fn lemma_index_follows_row(fields: Seq<MovingField>, index: MovingRowIndex, k: int)
    requires
        0 <= k < fields.len(),
        forall|j: int| 0 <= j < fields.len() - 1 ==> #[trigger] shifted_down(&fields[j], &fields[j + 1]),
    ensures
        fields[k].spec_row_of(index) == (fields[0].spec_row_of(index) + k) % (FIELD_HEIGHT as int),
        forall|c: int|
            0 <= c < FIELD_WIDTH ==> #[trigger] fields[k].tile((fields[k].spec_row_of(index), c))
                == fields[0].tile((fields[0].spec_row_of(index), c)),
    decreases k,
{
    if k > 0 {
        let j = k - 1;
        lemma_index_follows_row(fields, index, j);
        assert(shifted_down(&fields[j], &fields[j + 1]));
        assert(j + 1 == k);
        let r0 = fields[0].spec_row_of(index);
        assert(0 <= r0 < FIELD_HEIGHT);
        assert(fields[k].spec_row_of(index) == (fields[j].spec_row_of(index) + 1) % (FIELD_HEIGHT as int));
        assert(((r0 + j) % (FIELD_HEIGHT as int) + 1) % (FIELD_HEIGHT as int) == (r0 + k) % (FIELD_HEIGHT as int)) by {
            vstd::arithmetic::div_mod::lemma_add_mod_noop(r0 + j, 1, FIELD_HEIGHT as int);
        }
        assert forall|c: int| 0 <= c < FIELD_WIDTH implies #[trigger] fields[k].tile(
            (fields[k].spec_row_of(index), c),
        ) == fields[0].tile((fields[0].spec_row_of(index), c)) by {
            lemma_tick_keeps_tracked_rows(fields[j], fields[k], index, c);
            assert(fields[j].tile((fields[j].spec_row_of(index), c)) == fields[0].tile((r0, c)));
        }
    }
}

} // verus!
