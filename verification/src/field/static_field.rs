//! Definition of the static field and associated types

use vstd::prelude::*;

use crate::util::{
    in_field, pos_view, position, Colour, Direction, Position, PotentiallyColoured, FIELD_HEIGHT,
    FIELD_WIDTH,
};

use super::items::{CapsuleElement, ColourGrid, Virus};

verus! {

/// Representation of a single tile's contents
#[derive(Copy, Clone, Debug, PartialEq, Eq, Structural)]
pub enum TileContents {
    Empty,
    CapsuleElement(CapsuleElement),
    Virus(Virus),
}

impl TileContents {
    /// Whether the tile is occupied
    pub open spec fn spec_is_occupied(&self) -> bool {
        !(self is Empty)
    }

    /// The capsule element on the tile, if any
    pub open spec fn spec_element(&self) -> Option<CapsuleElement> {
        match self {
            TileContents::CapsuleElement(e) => Some(*e),
            _ => None,
        }
    }

    /// Check whether the tile is occupied
    pub fn is_occupied(&self) -> (r: bool)
        ensures
            r == self.spec_is_occupied(),
    {
        match self {
            TileContents::Empty => false,
            _ => true,
        }
    }

    /// Retrieve a reference to any capsule elemnt held by the tile
    ///
    /// If the tile holds a capsule element, this function will return a
    /// reference to that element. Otherwise, this function returns `None`.
    pub fn as_element(&self) -> (r: Option<&CapsuleElement>)
        ensures
            r is Some <==> self is CapsuleElement,
            r matches Some(e) ==> Some(*e) == self.spec_element(),
    {
        match self {
            TileContents::CapsuleElement(e) => Some(e),
            _ => None,
        }
    }

    /// Retrieve a mutable reference to any capsule elemnt held by the tile
    ///
    /// If the tile holds a capsule element, this function will return a mutable
    /// reference to that element. Otherwise, this function returns `None`.
    pub fn as_element_mut(&mut self) -> (r: Option<&mut CapsuleElement>)
        ensures
            r is Some <==> *old(self) is CapsuleElement,
            r matches Some(e) ==> Some(*e) == old(self).spec_element() && *final(self)
                == TileContents::CapsuleElement(*final(e)),
            r is None ==> *final(self) == *old(self),
    {
        match self {
            TileContents::CapsuleElement(e) => Some(e),
            _ => None,
        }
    }

    /// Retrieve the capsule elemnt held by the tile, if any
    ///
    /// If the tile holds a capsule element, this function will return that
    /// element. Otherwise, this function returns `None`.
    pub fn into_element(self) -> (r: Option<CapsuleElement>)
        ensures
            r == self.spec_element(),
    {
        match self {
            TileContents::CapsuleElement(e) => Some(e),
            _ => None,
        }
    }

    /// Retrieve a reference to any virus held by the tile
    ///
    /// If the tile holds a virus, this function will return a reference to that
    /// virus. Otherwise, this function returns `None`.
    pub fn as_virus(&self) -> (r: Option<&Virus>)
        ensures
            r is Some <==> self is Virus,
            r matches Some(v) ==> *self == TileContents::Virus(*v),
    {
        match self {
            TileContents::Virus(v) => Some(v),
            _ => None,
        }
    }

    /// Take the tile's contents, leaving it unoccupied
    pub fn take(&mut self) -> (r: Self)
        ensures
            r == *old(self),
            *final(self) == TileContents::Empty,
    {
        let r = *self;
        *self = TileContents::Empty;
        r
    }
}

impl PotentiallyColoured for TileContents {
    open spec fn spec_colour(&self) -> Option<Colour> {
        match self {
            TileContents::Empty => None,
            TileContents::CapsuleElement(e) => Some(e.spec_colour()),
            TileContents::Virus(v) => Some(v.spec_colour()),
        }
    }

    fn colour(&self) -> (r: Option<Colour>) {
        match self {
            TileContents::Empty => None,
            TileContents::CapsuleElement(e) => Some(e.colour()),
            TileContents::Virus(v) => Some(v.colour()),
        }
    }
}

/// Index of the tile at `p` in the row-major list of tiles
pub open spec fn tile_index(p: (int, int)) -> int {
    p.0 * FIELD_WIDTH + p.1
}

/// Compute the index of the tile at `pos` in the row-major list of tiles
pub fn tile_offset(pos: Position) -> (r: usize)
    ensures
        r == tile_index(pos_view(pos)),
        r < FIELD_HEIGHT * FIELD_WIDTH,
        in_field(pos_view(pos)),
    no_unwind
{
    let r = pos.0.index();
    let c = pos.1.index();
    assert(r * 8 + c < 128) by (nonlinear_arith)
        requires
            r < 16,
            c < 8,
    ;
    r * 8 + c
}

/// Field of settled/non-moving elements
pub struct StaticField {
    data: Vec<TileContents>,
}

impl StaticField {
    #[verifier::type_invariant]
    spec fn inv(self) -> bool {
        self.data.len() == FIELD_HEIGHT * FIELD_WIDTH
    }

    /// Contents of the tile at the given coordinates
    ///
    /// Coordinates outside the field denote free tiles.
    pub closed spec fn tile(&self, p: (int, int)) -> TileContents {
        if in_field(p) {
            self.data@[tile_index(p)]
        } else {
            TileContents::Empty
        }
    }

    /// Tiles outside the field are free
    pub broadcast proof fn lemma_tile_outside(&self, p: (int, int))
        ensures
            !in_field(p) ==> #[trigger] self.tile(p) == TileContents::Empty,
    {
    }

    /// Create an empty field
    pub fn new() -> (r: Self)
        ensures
            forall|p: (int, int)| #[trigger] r.tile(p) == TileContents::Empty,
    {
        let mut data: Vec<TileContents> = Vec::new();
        let mut i: usize = 0;
        while i < (FIELD_HEIGHT as usize) * (FIELD_WIDTH as usize)
            invariant
                i <= FIELD_HEIGHT * FIELD_WIDTH,
                data.len() == i,
                forall|j: int| 0 <= j < i ==> #[trigger] data[j] == TileContents::Empty,
            decreases FIELD_HEIGHT * FIELD_WIDTH - i,
        {
            data.push(TileContents::Empty);
            i = i + 1;
        }
        StaticField { data }
    }

    /// Retrieve the contents of the tile at the given position
    pub fn get(&self, pos: Position) -> (r: TileContents)
        ensures
            r == self.tile(pos_view(pos)),
    {
        proof {
            use_type_invariant(self);
        }
        let i = tile_offset(pos);
        self.data[i]
    }

    /// Replace the contents of the tile at the given position
    pub fn set(&mut self, pos: Position, contents: TileContents)
        ensures
            forall|p: (int, int)| #[trigger]
                final(self).tile(p) == if p == pos_view(pos) {
                    contents
                } else {
                    old(self).tile(p)
                },
        no_unwind
    {
        proof {
            use_type_invariant(&*self);
        }
        let i = tile_offset(pos);
        self.data[i] = contents;
        assert forall|p: (int, int)| #[trigger]
            self.tile(p) == if p == pos_view(pos) {
                contents
            } else {
                old(self).tile(p)
            } by {
            if in_field(p) && p != pos_view(pos) {
                assert(tile_index(p) != i);
            }
        }
    }

    /// Take the tile's contents, leaving it unoccupied
    pub fn take(&mut self, pos: Position) -> (r: TileContents)
        ensures
            r == old(self).tile(pos_view(pos)),
            forall|p: (int, int)| #[trigger]
                final(self).tile(p) == if p == pos_view(pos) {
                    TileContents::Empty
                } else {
                    old(self).tile(p)
                },
    {
        let r = self.get(pos);
        self.set(pos, TileContents::Empty);
        r
    }

    /// Initialize a field from a list of viruses
    ///
    /// For each item in the list, a virus with the given colour will be placed
    /// in the tile on the given position. Later items take precedence.
    pub fn from_viruses(viruses: &Vec<(Position, Colour)>) -> (r: Self)
        ensures
            forall|p: (int, int)|
                in_field(p) ==> #[trigger] r.tile(p) == match last_entry_at(viruses@, p) {
                    Some(c) => TileContents::Virus(Virus::new_spec(c)),
                    None => TileContents::Empty,
                },
    {
        let mut field = StaticField::new();
        let mut i: usize = 0;
        while i < viruses.len()
            invariant
                i <= viruses.len(),
                forall|p: (int, int)|
                    in_field(p) ==> #[trigger] field.tile(p) == match last_entry_at(
                        viruses@.take(i as int),
                        p,
                    ) {
                        Some(c) => TileContents::Virus(Virus::new_spec(c)),
                        None => TileContents::Empty,
                    },
            decreases viruses.len() - i,
        {
            let (pos, colour) = viruses[i];
            field.set(pos, TileContents::Virus(Virus::new(colour)));
            assert(viruses@.take(i + 1).drop_last() =~= viruses@.take(i as int));
            i = i + 1;
        }
        assert(viruses@.take(viruses.len() as int) =~= viruses@);
        field
    }
}

/// The colour of the last entry of `entries` at position `p`, if any
pub open spec fn last_entry_at(entries: Seq<(Position, Colour)>, p: (int, int)) -> Option<Colour>
    decreases entries.len(),
{
    if entries.len() == 0 {
        None
    } else if pos_view(entries.last().0) == p {
        Some(entries.last().1)
    } else {
        last_entry_at(entries.drop_last(), p)
    }
}

impl ColourGrid for StaticField {
    open spec fn spec_colour_at(&self, p: (int, int)) -> Option<Colour> {
        self.tile(p).spec_colour()
    }

    fn colour_at(&self, pos: Position) -> (r: Option<Colour>) {
        self.get(pos).colour()
    }
}

/// Whether a player with the given field is defeated
pub open spec fn spec_defeated(field: &StaticField) -> bool {
    exists|c: int| 0 <= c < FIELD_WIDTH && #[trigger] field.tile((0, c)).spec_is_occupied()
}

/// Check whether the player with the given field is defeated
///
/// This function returns true if any tile in the top row is occupied.
pub fn defeated(field: &StaticField) -> (r: bool)
    ensures
        r == spec_defeated(field),
{
    let mut c: usize = 0;
    while c < FIELD_WIDTH as usize
        invariant
            c <= FIELD_WIDTH,
            forall|j: int| 0 <= j < c ==> !(#[trigger] field.tile((0, j)).spec_is_occupied()),
        decreases FIELD_WIDTH - c,
    {
        if field.get(position(0, c)).is_occupied() {
            return true;
        }
        c = c + 1;
    }
    false
}

} // verus!
