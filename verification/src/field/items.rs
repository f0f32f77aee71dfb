//! Types representing items occupying individual tiles

use vstd::prelude::*;

use crate::util::{
    in_field, pos_view, position, Colour, ColumnIndex, Direction, Position, PotentiallyColoured,
    RangeInclusive,
    RowIndex, Step, FIELD_HEIGHT, FIELD_WIDTH,
};

verus! {

/// Representation of a virus
#[derive(Copy, Clone, Debug, PartialEq, Eq, Structural)]
pub struct Virus {
    colour: Colour,
}

impl Virus {
    /// The virus' colour
    pub closed spec fn spec_colour(&self) -> Colour {
        self.colour
    }

    /// The virus with the given colour
    pub closed spec fn new_spec(colour: Colour) -> Self {
        Virus { colour }
    }

    /// A new virus has the colour it was created with
    pub broadcast proof fn lemma_virus_colour(colour: Colour)
        ensures
            #[trigger] Virus::new_spec(colour).spec_colour() == colour,
    {
    }

    /// Create a new virus with the given colour
    pub fn new(colour: Colour) -> (r: Self)
        ensures
            r.spec_colour() == colour,
            r == Virus::new_spec(colour),
    {
        Self { colour }
    }

    /// Retrieve the virus' colour
    pub fn colour(&self) -> (r: Colour)
        ensures
            r == self.spec_colour(),
    {
        self.colour
    }
}

/// Representation of a capsule element
#[derive(Copy, Clone, Debug, PartialEq, Eq, Structural)]
pub struct CapsuleElement {
    colour: Colour,
    /// Direction of any capsule element bound to this one
    partner: Option<Direction>,
}

impl CapsuleElement {
    /// The capsule element's colour
    pub closed spec fn spec_colour(&self) -> Colour {
        self.colour
    }

    /// Direction of any capsule element bound to this one
    pub closed spec fn spec_partner(&self) -> Option<Direction> {
        self.partner
    }

    /// The capsule element with the given colour and partner
    pub closed spec fn new_spec(colour: Colour, partner: Option<Direction>) -> Self {
        CapsuleElement { colour, partner }
    }

    /// Create a new capsule element
    pub fn new(colour: Colour, partner: Option<Direction>) -> (r: Self)
        ensures
            r.spec_colour() == colour,
            r.spec_partner() == partner,
            r == CapsuleElement::new_spec(colour, partner),
    {
        Self { colour, partner }
    }

    /// The unbound capsule element with the given colour
    pub closed spec fn single_spec(colour: Colour) -> Self {
        CapsuleElement { colour, partner: None }
    }

    /// Create a new unbound capsule element
    ///
    /// The capsule element will not have a partner.
    pub fn new_single(colour: Colour) -> (r: Self)
        ensures
            r.spec_colour() == colour,
            r.spec_partner() is None,
            r == CapsuleElement::single_spec(colour),
    {
        Self::new(colour, None)
    }

    /// Retrieve the capsule element's colour
    pub fn colour(&self) -> (r: Colour)
        ensures
            r == self.spec_colour(),
    {
        self.colour
    }

    /// Retrieve the direction of any capsule element bound to this one
    pub fn partner(&self) -> (r: Option<Direction>)
        ensures
            r == self.spec_partner(),
    {
        self.partner
    }

    /// The element with the same colour, bound to the given partner
    pub closed spec fn spec_with_partner(self, partner: Option<Direction>) -> Self {
        CapsuleElement { colour: self.colour, partner }
    }

    /// A new element has the colour and partner it was created with
    pub broadcast proof fn lemma_new(colour: Colour, partner: Option<Direction>)
        ensures
            #![trigger CapsuleElement::new_spec(colour, partner)]
            CapsuleElement::new_spec(colour, partner).spec_colour() == colour,
            CapsuleElement::new_spec(colour, partner).spec_partner() == partner,
    {
    }

    /// An unbound element has the colour it was created with and no partner
    pub broadcast proof fn lemma_single(colour: Colour)
        ensures
            #![trigger CapsuleElement::single_spec(colour)]
            CapsuleElement::single_spec(colour).spec_colour() == colour,
            CapsuleElement::single_spec(colour).spec_partner() is None,
    {
    }

    /// Rebinding an element only changes its partner
    pub broadcast proof fn lemma_with_partner(self, partner: Option<Direction>)
        ensures
            #![trigger self.spec_with_partner(partner)]
            self.spec_with_partner(partner).spec_colour() == self.spec_colour(),
            self.spec_with_partner(partner).spec_partner() == partner,
            self.spec_with_partner(partner).spec_with_partner(None) == self.spec_with_partner(None),
    {
    }

    /// Bind the element to the element in the given direction, or unbind it
    pub fn set_partner(&mut self, partner: Option<Direction>)
        ensures
            final(self).spec_colour() == old(self).spec_colour(),
            final(self).spec_partner() == partner,
            *final(self) == old(self).spec_with_partner(partner),
    {
        self.partner = partner;
    }
}

/// Capsule elements with the same colour and partner are equal.
pub proof fn lemma_element_ext(a: CapsuleElement, b: CapsuleElement)
    requires
        a.spec_colour() == b.spec_colour(),
        a.spec_partner() == b.spec_partner(),
    ensures
        a == b,
{
}

impl PotentiallyColoured for Option<CapsuleElement> {
    open spec fn spec_colour(&self) -> Option<Colour> {
        match self {
            Some(e) => Some(e.spec_colour()),
            None => None,
        }
    }

    fn colour(&self) -> (r: Option<Colour>) {
        match self {
            Some(e) => Some(e.colour()),
            None => None,
        }
    }
}

/// Representation of a field update
///
/// A tuple of this kind may be used to convey updates in the play field. If it
/// contains a `Colour`, it represents a capsule elements emerging at the given
/// position. A `None` will represent the tile to become free.
pub type Update = (Position, Option<Colour>);

} // verus!

verus! {

/// A field of tiles which may carry colours
pub trait ColourGrid {
    /// Colour of the tile at the given coordinates, if any
    spec fn spec_colour_at(&self, p: (int, int)) -> Option<Colour>;

    /// Retrieve the colour of the tile at the given position, if any
    fn colour_at(&self, pos: Position) -> (r: Option<Colour>)
        ensures
            r == self.spec_colour_at(pos_view(pos)),
    ;
}

/// Whether the tile at `p` has the colour `col`
pub open spec fn has_colour<G: ColourGrid>(g: &G, p: (int, int), col: Colour) -> bool {
    g.spec_colour_at(p) == Some(col)
}

/// Columns `a` to `b` form a maximal horizontal run of tiles of colour `col` in row `row`
pub open spec fn is_horizontal_run<G: ColourGrid>(
    g: &G,
    row: int,
    a: int,
    b: int,
    col: Colour,
) -> bool {
    &&& 0 <= a <= b < FIELD_WIDTH
    &&& forall|c: int| a <= c <= b ==> #[trigger] has_colour(g, (row, c), col)
    &&& (a == 0 || !has_colour(g, (row, a - 1), col))
    &&& (b == FIELD_WIDTH - 1 || !has_colour(g, (row, b + 1), col))
}

/// Rows `a` to `b` form a maximal vertical run of tiles of colour `col` in column `column`
pub open spec fn is_vertical_run<G: ColourGrid>(
    g: &G,
    column: int,
    a: int,
    b: int,
    col: Colour,
) -> bool {
    &&& 0 <= a <= b < FIELD_HEIGHT
    &&& forall|r: int| a <= r <= b ==> #[trigger] has_colour(g, (r, column), col)
    &&& (a == 0 || !has_colour(g, (a - 1, column), col))
    &&& (b == FIELD_HEIGHT - 1 || !has_colour(g, (b + 1, column), col))
}

/// Minimum number of tiles forming an eliminated configuration
pub open spec fn row_of_four_len() -> int {
    4
}

/// The maximal horizontal run through `hint` is shorter than four tiles
pub open spec fn no_horizontal_row_of_four<G: ColourGrid>(
    g: &G,
    hint: (int, int),
    col: Colour,
) -> bool {
    forall|a: int, b: int|
        #![trigger is_horizontal_run(g, hint.0, a, b, col)]
        is_horizontal_run(g, hint.0, a, b, col) && a <= hint.1 <= b ==> b - a + 1
            < row_of_four_len()
}

/// The maximal vertical run through `hint` is shorter than four tiles
pub open spec fn no_vertical_row_of_four<G: ColourGrid>(
    g: &G,
    hint: (int, int),
    col: Colour,
) -> bool {
    forall|a: int, b: int|
        #![trigger is_vertical_run(g, hint.1, a, b, col)]
        is_vertical_run(g, hint.1, a, b, col) && a <= hint.0 <= b ==> b - a + 1
            < row_of_four_len()
}

/// No tile of the grid is part of a horizontal or vertical run of four or more
/// tiles of its colour
pub open spec fn free_of_rows_of_four<G: ColourGrid>(g: &G) -> bool {
    forall|p: (int, int), col: Colour|
        in_field(p) && #[trigger] has_colour(g, p, col) ==> no_horizontal_row_of_four(g, p, col)
            && no_vertical_row_of_four(g, p, col)
}

/// Representation of a vertical or horizontal configuration of elements
///
/// This type is intended as an output type for the `row_of_four` function.
#[derive(Copy, Clone, Debug, PartialEq, Eq, Structural, Hash)]
pub enum RowOfFour {
    Horizontal(RowIndex, RangeInclusive<ColumnIndex>),
    Vertical(RangeInclusive<RowIndex>, ColumnIndex),
}

impl RowOfFour {
    /// The coordinates of the tiles covered, in order
    pub open spec fn spec_positions(&self) -> Seq<(int, int)> {
        match self {
            RowOfFour::Horizontal(row, columns) => Seq::new(
                columns.values().len(),
                |i: int| (row@, columns.values()[i]),
            ),
            RowOfFour::Vertical(rows, column) => Seq::new(
                rows.values().len(),
                |i: int| (rows.values()[i], column@),
            ),
        }
    }

    /// Number of tiles covered
    pub fn len(&self) -> (r: usize)
        ensures
            r == self.spec_positions().len(),
    {
        match self {
            RowOfFour::Horizontal(_, columns) => columns.len(),
            RowOfFour::Vertical(rows, _) => rows.len(),
        }
    }

    /// Retrieve the positions covered, in order
    pub fn positions(&self) -> (r: Vec<Position>)
        ensures
            r.len() == self.spec_positions().len(),
            forall|i: int| 0 <= i < r.len() ==> #[trigger] pos_view(r[i]) == self.spec_positions()[i],
    {
        match self {
            RowOfFour::Horizontal(row, columns) => {
                let cols = columns.to_vec();
                let mut res: Vec<Position> = Vec::new();
                let mut i: usize = 0;
                while i < cols.len()
                    invariant
                        0 <= i <= cols.len(),
                        cols.len() == columns.spec_len(),
                        *self == RowOfFour::Horizontal(*row, *columns),
                        res.len() == i,
                        forall|j: int| 0 <= j < cols.len() ==> #[trigger] cols[j].spec_index() == columns.values()[j],
                        forall|j: int| 0 <= j < i ==> #[trigger] pos_view(res[j]) == self.spec_positions()[j],
                    decreases cols.len() - i,
                {
                    res.push((*row, cols[i]));
                    assert(cols[i as int].spec_index() == cols[i as int]@);
                    assert(pos_view(res[i as int]) == self.spec_positions()[i as int]);
                    i = i + 1;
                }
                res
            },
            RowOfFour::Vertical(rows, column) => {
                let rs = rows.to_vec();
                let mut res: Vec<Position> = Vec::new();
                let mut i: usize = 0;
                while i < rs.len()
                    invariant
                        0 <= i <= rs.len(),
                        rs.len() == rows.spec_len(),
                        *self == RowOfFour::Vertical(*rows, *column),
                        res.len() == i,
                        forall|j: int| 0 <= j < rs.len() ==> #[trigger] rs[j].spec_index() == rows.values()[j],
                        forall|j: int| 0 <= j < i ==> #[trigger] pos_view(res[j]) == self.spec_positions()[j],
                    decreases rs.len() - i,
                {
                    res.push((rs[i], *column));
                    assert(rs[i as int].spec_index() == rs[i as int]@);
                    assert(pos_view(res[i as int]) == self.spec_positions()[i as int]);
                    i = i + 1;
                }
                res
            },
        }
    }
}

/// `r` is the configuration of four or more tiles through `hint`, if any
///
/// A horizontal configuration takes precedence over a vertical one.
pub open spec fn row_of_four_result<G: ColourGrid>(
    field: &G,
    hint: (int, int),
    r: Option<(Colour, RowOfFour)>,
) -> bool {
    &&& (r is None <==> match field.spec_colour_at(hint) {
            None => true,
            Some(col) => no_horizontal_row_of_four(field, hint, col)
                && no_vertical_row_of_four(field, hint, col),
        })
    &&& (r matches Some((col, row)) ==> {
            &&& field.spec_colour_at(hint) == Some(col)
            &&& row.spec_positions().len() >= row_of_four_len()
            &&& match row {
                RowOfFour::Horizontal(rr, columns) => {
                    &&& rr@ == hint.0
                    &&& columns.covers(columns.values()[0], columns.values().last())
                    &&& is_horizontal_run(
                        field,
                        hint.0,
                        columns.values()[0],
                        columns.values().last(),
                        col,
                    )
                    &&& columns.values()[0] <= hint.1 <= columns.values().last()
                },
                RowOfFour::Vertical(rows, column) => {
                    &&& column@ == hint.1
                    &&& no_horizontal_row_of_four(field, hint, col)
                    &&& rows.covers(rows.values()[0], rows.values().last())
                    &&& is_vertical_run(
                        field,
                        hint.1,
                        rows.values()[0],
                        rows.values().last(),
                        col,
                    )
                    &&& rows.values()[0] <= hint.0 <= rows.values().last()
                },
            }
        })
}

/// Whether the tile at `pos` carries colour `col`
fn tile_has_colour<G: ColourGrid>(field: &G, pos: Position, col: Colour) -> (r: bool)
    ensures
        r == has_colour(field, pos_view(pos), col),
{
    match field.colour_at(pos) {
        Some(c) => c == col,
        None => false,
    }
}

/// Find rows of four or more tiles of the same colour
///
/// This function finds horizontal and vertical configurations of at least four
/// tiles with the same colour. Only configurations which include the given
/// position will be considered. If such a configuration is found, it is
/// returned alongside the colour of that row. A horizontal configuration takes
/// precedence over a vertical one.
pub fn row_of_four<G: ColourGrid>(field: &G, hint: Position) -> (r: Option<(Colour, RowOfFour)>)
    ensures
        row_of_four_result(field, pos_view(hint), r),
{
    broadcast use crate::util::group_index_bounds;

    let col = match field.colour_at(hint) {
        Some(c) => c,
        None => return None,
    };
    let ghost h = pos_view(hint);
    let row = hint.0;
    let column = hint.1;
    let hr = row.index();
    let hc = column.index();

    // Horizontal extent
    let mut a: usize = hc;
    while a > 0 && tile_has_colour(field, position(hr, a - 1), col)
        invariant
            a <= hc,
            hc == h.1,
            hr == h.0,
            0 <= h.0 < FIELD_HEIGHT,
            0 <= h.1 < FIELD_WIDTH,
            forall|c: int| a <= c <= hc ==> #[trigger] has_colour(field, (h.0, c), col),
        decreases a,
    {
        a = a - 1;
    }
    let mut b: usize = hc;
    while b + 1 < FIELD_WIDTH as usize && tile_has_colour(field, position(hr, b + 1), col)
        invariant
            hc <= b < FIELD_WIDTH,
            hc == h.1,
            hr == h.0,
            0 <= h.0 < FIELD_HEIGHT,
            forall|c: int| hc <= c <= b ==> #[trigger] has_colour(field, (h.0, c), col),
        decreases FIELD_WIDTH - b,
    {
        b = b + 1;
    }
    assert(is_horizontal_run(field, h.0, a as int, b as int, col));
    proof {
        lemma_horizontal_run_unique(field, h, col, a as int, b as int);
    }
    if b - a + 1 >= 4 {
        let first = match ColumnIndex::try_from(a) {
            Ok(c) => c,
            Err(_) => ColumnIndex::leftmost_column(),
        };
        let last = match ColumnIndex::try_from(b) {
            Ok(c) => c,
            Err(_) => ColumnIndex::leftmost_column(),
        };
        let columns = RangeInclusive::new(first, last);
        return Some((col, RowOfFour::Horizontal(row, columns)));
    }
    // Vertical extent

    let mut a: usize = hr;
    while a > 0 && tile_has_colour(field, position(a - 1, hc), col)
        invariant
            a <= hr,
            hc == h.1,
            hr == h.0,
            0 <= h.0 < FIELD_HEIGHT,
            0 <= h.1 < FIELD_WIDTH,
            forall|r: int| a <= r <= hr ==> #[trigger] has_colour(field, (r, h.1), col),
        decreases a,
    {
        a = a - 1;
    }
    let mut b: usize = hr;
    while b + 1 < FIELD_HEIGHT as usize && tile_has_colour(field, position(b + 1, hc), col)
        invariant
            hr <= b < FIELD_HEIGHT,
            hc == h.1,
            hr == h.0,
            0 <= h.1 < FIELD_WIDTH,
            forall|r: int| hr <= r <= b ==> #[trigger] has_colour(field, (r, h.1), col),
        decreases FIELD_HEIGHT - b,
    {
        b = b + 1;
    }
    assert(is_vertical_run(field, h.1, a as int, b as int, col));
    proof {
        lemma_vertical_run_unique(field, h, col, a as int, b as int);
    }
    if b - a + 1 >= 4 {
        let first = match RowIndex::try_from(a) {
            Ok(r) => r,
            Err(_) => RowIndex::top_row(),
        };
        let last = match RowIndex::try_from(b) {
            Ok(r) => r,
            Err(_) => RowIndex::top_row(),
        };
        let rows = RangeInclusive::new(first, last);
        Some((col, RowOfFour::Vertical(rows, column)))
    } else {
        None
    }
}

/// The maximal horizontal run through a tile is unique.
pub proof fn lemma_horizontal_run_unique<G: ColourGrid>(
    g: &G,
    h: (int, int),
    col: Colour,
    a: int,
    b: int,
)
    requires
        is_horizontal_run(g, h.0, a, b, col),
        a <= h.1 <= b,
    ensures
        forall|a2: int, b2: int|
            #![trigger is_horizontal_run(g, h.0, a2, b2, col)]
            is_horizontal_run(g, h.0, a2, b2, col) && a2 <= h.1 <= b2 ==> a2 == a && b2 == b,
{
    assert forall|a2: int, b2: int|
        #![trigger is_horizontal_run(g, h.0, a2, b2, col)]
        is_horizontal_run(g, h.0, a2, b2, col) && a2 <= h.1 <= b2 implies a2 == a && b2 == b by {
        if a2 < a {
            assert(has_colour(g, (h.0, a - 1), col));
        }
        if a < a2 {
            assert(has_colour(g, (h.0, a2 - 1), col));
        }
        if b2 < b {
            assert(has_colour(g, (h.0, b2 + 1), col));
        }
        if b < b2 {
            assert(has_colour(g, (h.0, b + 1), col));
        }
    }
}

/// The maximal vertical run through a tile is unique.
pub proof fn lemma_vertical_run_unique<G: ColourGrid>(
    g: &G,
    h: (int, int),
    col: Colour,
    a: int,
    b: int,
)
    requires
        is_vertical_run(g, h.1, a, b, col),
        a <= h.0 <= b,
    ensures
        forall|a2: int, b2: int|
            #![trigger is_vertical_run(g, h.1, a2, b2, col)]
            is_vertical_run(g, h.1, a2, b2, col) && a2 <= h.0 <= b2 ==> a2 == a && b2 == b,
{
    assert forall|a2: int, b2: int|
        #![trigger is_vertical_run(g, h.1, a2, b2, col)]
        is_vertical_run(g, h.1, a2, b2, col) && a2 <= h.0 <= b2 implies a2 == a && b2 == b by {
        if a2 < a {
            assert(has_colour(g, (a - 1, h.1), col));
        }
        if a < a2 {
            assert(has_colour(g, (a2 - 1, h.1), col));
        }
        if b2 < b {
            assert(has_colour(g, (b2 + 1, h.1), col));
        }
        if b < b2 {
            assert(has_colour(g, (b + 1, h.1), col));
        }
    }
}

} // verus!
