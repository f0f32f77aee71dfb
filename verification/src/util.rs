//! Core utilities: field geometry, indices, directions and colours

use vstd::prelude::*;

verus! {

/// Number of columns of a field
pub const FIELD_WIDTH: u8 = 8;

/// Number of rows of a field
pub const FIELD_HEIGHT: u8 = 16;

/// Convenience type for positions
///
/// The first component is the row, the second one the column.
pub type Position = (RowIndex, ColumnIndex);

/// Whether the integer coordinates `(row, column)` lie within the field
pub open spec fn in_field(p: (int, int)) -> bool {
    0 <= p.0 < FIELD_HEIGHT && 0 <= p.1 < FIELD_WIDTH
}

/// The coordinates of the tile adjacent to `p` in the direction `dir`
///
/// The result may lie outside of the field.
pub open spec fn spec_neighbour(p: (int, int), dir: Direction) -> (int, int) {
    (p.0 + dir.row_offset(), p.1 + dir.col_offset())
}

/// Description of a direction
#[derive(Copy, Clone, Debug, PartialEq, Eq, Structural, Hash)]
pub enum Direction {
    Left,
    Right,
    Above,
    Below,
}

impl Direction {
    /// The direction rotated clockwise
    pub open spec fn spec_rotated_cw(self) -> Direction {
        match self {
            Direction::Left => Direction::Above,
            Direction::Above => Direction::Right,
            Direction::Right => Direction::Below,
            Direction::Below => Direction::Left,
        }
    }

    /// The direction rotated counter clockwise
    pub open spec fn spec_rotated_ccw(self) -> Direction {
        match self {
            Direction::Left => Direction::Below,
            Direction::Below => Direction::Right,
            Direction::Right => Direction::Above,
            Direction::Above => Direction::Left,
        }
    }

    /// The opposite direction
    pub open spec fn opposite(self) -> Direction {
        self.spec_rotated_cw().spec_rotated_cw()
    }

    /// The change of the row index when stepping into this direction
    pub open spec fn row_offset(self) -> int {
        match self {
            Direction::Above => -1,
            Direction::Below => 1,
            _ => 0,
        }
    }

    /// The change of the column index when stepping into this direction
    pub open spec fn col_offset(self) -> int {
        match self {
            Direction::Left => -1,
            Direction::Right => 1,
            _ => 0,
        }
    }

    /// Rotate the direction clockwise
    pub fn rotated_cw(self) -> (r: Direction)
        ensures
            r == self.spec_rotated_cw(),
    {
        match self {
            Direction::Left => Direction::Above,
            Direction::Above => Direction::Right,
            Direction::Right => Direction::Below,
            Direction::Below => Direction::Left,
        }
    }

    /// Rotate the direction counter clockwise
    pub fn rotated_ccw(self) -> (r: Direction)
        ensures
            r == self.spec_rotated_ccw(),
    {
        match self {
            Direction::Left => Direction::Below,
            Direction::Below => Direction::Right,
            Direction::Right => Direction::Above,
            Direction::Above => Direction::Left,
        }
    }
}

/// Rotating clockwise and then counter clockwise yields the initial direction.
pub proof fn lemma_rotation_identity(dir: Direction)
    ensures
        dir.spec_rotated_cw().spec_rotated_ccw() == dir,
        dir.spec_rotated_ccw().spec_rotated_cw() == dir,
{
}

/// Four clockwise rotations, and no fewer, lead back to the initial direction.
pub proof fn lemma_cw_rotation_cycle(dir: Direction)
    ensures
        dir.spec_rotated_cw() != dir,
        dir.spec_rotated_cw().spec_rotated_cw() != dir,
        dir.spec_rotated_cw().spec_rotated_cw().spec_rotated_cw() != dir,
        dir.spec_rotated_cw().spec_rotated_cw().spec_rotated_cw().spec_rotated_cw() == dir,
{
}

/// Four counter clockwise rotations, and no fewer, lead back to the initial direction.
pub proof fn lemma_ccw_rotation_cycle(dir: Direction)
    ensures
        dir.spec_rotated_ccw() != dir,
        dir.spec_rotated_ccw().spec_rotated_ccw() != dir,
        dir.spec_rotated_ccw().spec_rotated_ccw().spec_rotated_ccw() != dir,
        dir.spec_rotated_ccw().spec_rotated_ccw().spec_rotated_ccw().spec_rotated_ccw() == dir,
{
}

/// Stepping into a direction and then into the opposite one leads back to the start.
pub proof fn lemma_position_identity(p: (int, int), dir: Direction)
    requires
        in_field(p),
    ensures
        in_field(spec_neighbour(p, dir)) ==> in_field(
            spec_neighbour(spec_neighbour(p, dir), dir.opposite()),
        ) && spec_neighbour(spec_neighbour(p, dir), dir.opposite()) == p,
{
}

/// Project-specific partial predefinition of `std::iter::Step`
///
/// Implementors are indices with values from `0` to `spec_bound() - 1`.
pub trait Step: Sized + Copy {
    /// Number of distinct index values
    spec fn spec_bound() -> int;

    /// The integer value of the index
    spec fn spec_index(&self) -> int;

    /// Every index lies within its bounds
    proof fn lemma_index_bounds(&self)
        ensures
            0 <= self.spec_index() < Self::spec_bound(),
            Self::spec_bound() <= FIELD_HEIGHT,
    ;

    /// There is at least one index value, and no more than there are rows
    proof fn lemma_bound()
        ensures
            0 < Self::spec_bound() <= FIELD_HEIGHT,
    ;

    /// Retrieve the integer value of the index
    fn index_value(&self) -> (r: usize)
        ensures
            r == self.spec_index(),
    ;

    /// Create an index from an integer value, if it is in bounds
    fn from_index_value(value: usize) -> (r: Option<Self>)
        ensures
            r is Some <==> value < Self::spec_bound(),
            r matches Some(i) ==> i.spec_index() == value,
    ;

    /// Number of successor steps from start to end
    fn steps_between(start: &Self, end: &Self) -> (r: Option<usize>)
        ensures
            r is Some <==> start.spec_index() <= end.spec_index(),
            r matches Some(n) ==> n == end.spec_index() - start.spec_index(),
    {
        let s = start.index_value();
        let e = end.index_value();
        if s <= e {
            Some(e - s)
        } else {
            None
        }
    }

    /// Checked integer addition
    ///
    /// This function returns an index for the `count`'th next row or column. If
    /// the resulting row or column would be outside the field, the function
    /// returns `None`.
    fn forward_checked(self, count: usize) -> (r: Option<Self>)
        ensures
            r is Some <==> self.spec_index() + count < Self::spec_bound(),
            r matches Some(i) ==> i.spec_index() == self.spec_index() + count,
    {
        proof {
            self.lemma_index_bounds();
        }
        let v = self.index_value();
        if count < FIELD_HEIGHT as usize {
            Self::from_index_value(v + count)
        } else {
            None
        }
    }

    /// Checked integer substraction
    ///
    /// This function returns an index for the `count`'th previous row or
    /// column. If the resulting row or column would be outside the field, the
    /// function returns `None`.
    fn backward_checked(self, count: usize) -> (r: Option<Self>)
        ensures
            r is Some <==> self.spec_index() - count >= 0,
            r matches Some(i) ==> i.spec_index() == self.spec_index() - count,
    {
        proof {
            self.lemma_index_bounds();
        }
        let v = self.index_value();
        if count <= v {
            Self::from_index_value(v - count)
        } else {
            None
        }
    }
}

/// Row index type
///
/// Instances of this type serve as an index for a row in a field. It represents
/// values from `0` (for the top row) to `15` (for the bottom row).
#[derive(Copy, Clone, Debug, PartialEq, Eq, Structural, PartialOrd, Ord, Hash)]
pub struct RowIndex {
    data: u8,
}

impl View for RowIndex {
    type V = int;

    closed spec fn view(&self) -> int {
        (self.data % 16) as int
    }
}

/// A row index always lies within the field.
pub broadcast proof fn lemma_row_index_bounds(r: RowIndex)
    ensures
        0 <= #[trigger] r@ < FIELD_HEIGHT,
{
}

impl RowIndex {
    #[verifier::type_invariant]
    spec fn inv(self) -> bool {
        self.data < 16
    }

    /// Index of the top row
    pub fn top_row() -> (r: RowIndex)
        ensures
            r@ == 0,
    {
        RowIndex { data: 0 }
    }

    /// Index of the bottom row
    pub fn bottom_row() -> (r: RowIndex)
        ensures
            r@ == FIELD_HEIGHT - 1,
    {
        RowIndex { data: FIELD_HEIGHT - 1 }
    }

    /// Retrieve the row's number as a `usize`
    pub fn index(&self) -> (r: usize)
        ensures
            r == self@,
            r < FIELD_HEIGHT,
        no_unwind
    {
        proof {
            use_type_invariant(self);
        }
        self.data as usize
    }

    /// Convert a `usize` into a row index
    ///
    /// The value is handed back as an error if it does not denote a row.
    pub fn try_from(value: usize) -> (r: Result<RowIndex, usize>)
        ensures
            r is Ok <==> value < FIELD_HEIGHT,
            r matches Ok(i) ==> i@ == value,
            r matches Err(v) ==> v == value,
    {
        if value < FIELD_HEIGHT as usize {
            Ok(RowIndex { data: value as u8 })
        } else {
            Err(value)
        }
    }
}

impl Step for RowIndex {
    open spec fn spec_bound() -> int {
        FIELD_HEIGHT as int
    }

    open spec fn spec_index(&self) -> int {
        self@
    }

    proof fn lemma_index_bounds(&self) {
    }

    proof fn lemma_bound() {
    }

    fn index_value(&self) -> (r: usize) {
        self.index()
    }

    fn from_index_value(value: usize) -> (r: Option<Self>) {
        match RowIndex::try_from(value) {
            Ok(i) => Some(i),
            Err(_) => None,
        }
    }
}

/// Column index type
///
/// Instances of this type serve as an index for a column in a field. It
/// represents values from `0` (for the leftmost column) to `7` (for the
/// rightmost column).
#[derive(Copy, Clone, Debug, PartialEq, Eq, Structural, PartialOrd, Ord, Hash)]
pub struct ColumnIndex {
    data: u8,
}

impl View for ColumnIndex {
    type V = int;

    closed spec fn view(&self) -> int {
        (self.data % 8) as int
    }
}

/// A column index always lies within the field.
pub broadcast proof fn lemma_column_index_bounds(c: ColumnIndex)
    ensures
        0 <= #[trigger] c@ < FIELD_WIDTH,
{
}

/// Bounds of row and column indices
pub broadcast group group_index_bounds {
    lemma_row_index_bounds,
    lemma_column_index_bounds,
}

impl ColumnIndex {
    #[verifier::type_invariant]
    spec fn inv(self) -> bool {
        self.data < 8
    }

    /// Index of the leftmost column
    pub fn leftmost_column() -> (r: ColumnIndex)
        ensures
            r@ == 0,
    {
        ColumnIndex { data: 0 }
    }

    /// Index of the rightmost column
    pub fn rightmost_column() -> (r: ColumnIndex)
        ensures
            r@ == FIELD_WIDTH - 1,
    {
        ColumnIndex { data: FIELD_WIDTH - 1 }
    }

    /// Retrieve the column's number as a `usize`
    pub fn index(&self) -> (r: usize)
        ensures
            r == self@,
            r < FIELD_WIDTH,
        no_unwind
    {
        proof {
            use_type_invariant(self);
        }
        self.data as usize
    }

    /// Convert a `usize` into a column index
    ///
    /// The value is handed back as an error if it does not denote a column.
    pub fn try_from(value: usize) -> (r: Result<ColumnIndex, usize>)
        ensures
            r is Ok <==> value < FIELD_WIDTH,
            r matches Ok(i) ==> i@ == value,
            r matches Err(v) ==> v == value,
    {
        if value < FIELD_WIDTH as usize {
            Ok(ColumnIndex { data: value as u8 })
        } else {
            Err(value)
        }
    }
}

impl Step for ColumnIndex {
    open spec fn spec_bound() -> int {
        FIELD_WIDTH as int
    }

    open spec fn spec_index(&self) -> int {
        self@
    }

    proof fn lemma_index_bounds(&self) {
    }

    proof fn lemma_bound() {
    }

    fn index_value(&self) -> (r: usize) {
        self.index()
    }

    fn from_index_value(value: usize) -> (r: Option<Self>) {
        match ColumnIndex::try_from(value) {
            Ok(i) => Some(i),
            Err(_) => None,
        }
    }
}

/// The coordinates of a position
pub open spec fn pos_view(p: Position) -> (int, int) {
    (p.0@, p.1@)
}

/// Create a position from integer coordinates
pub fn position(row: usize, col: usize) -> (r: Position)
    requires
        in_field((row as int, col as int)),
    ensures
        pos_view(r) == (row as int, col as int),
{
    let r = match RowIndex::try_from(row) {
        Ok(r) => r,
        Err(_) => RowIndex::top_row(),
    };
    let c = match ColumnIndex::try_from(col) {
        Ok(c) => c,
        Err(_) => ColumnIndex::leftmost_column(),
    };
    (r, c)
}

/// Retrieve the position adjacent to `pos` in the direction `dir`
///
/// If that position would lie outside the field, this function returns `None`.
pub fn neighbour(pos: Position, dir: Direction) -> (r: Option<Position>)
    ensures
        r is Some <==> in_field(spec_neighbour(pos_view(pos), dir)),
        r matches Some(q) ==> pos_view(q) == spec_neighbour(pos_view(pos), dir),
{
    match dir {
        Direction::Left => match pos.1.backward_checked(1) {
            Some(c) => Some((pos.0, c)),
            None => None,
        },
        Direction::Right => match pos.1.forward_checked(1) {
            Some(c) => Some((pos.0, c)),
            None => None,
        },
        Direction::Above => match pos.0.backward_checked(1) {
            Some(r) => Some((r, pos.1)),
            None => None,
        },
        Direction::Below => match pos.0.forward_checked(1) {
            Some(r) => Some((r, pos.1)),
            None => None,
        },
    }
}

/// Step from an optional position into a direction
pub fn neighbour_of(pos: Option<Position>, dir: Direction) -> (r: Option<Position>)
    ensures
        r is Some <==> (pos matches Some(p) && in_field(spec_neighbour(pos_view(p), dir))),
        r matches Some(q) ==> pos_view(q) == spec_neighbour(pos_view(pos->0), dir),
{
    match pos {
        Some(p) => neighbour(p, dir),
        None => None,
    }
}

/// Inclusive range of rows or columns
///
/// This is somewhat of a reimplementation of `std::ops::RangeInclusive`: it
/// covers all indices from the first to the last one, and is empty if the
/// first lies past the last one.
#[derive(Copy, Clone, Debug, PartialEq, Eq, Structural, Hash)]
pub struct RangeInclusive<I> {
    first: I,
    last: I,
    exhausted: bool,
}

impl<I: Step> RangeInclusive<I> {
    /// The integer values covered by the range, in order
    pub closed spec fn values(&self) -> Seq<int> {
        if !self.exhausted && self.first.spec_index() <= self.last.spec_index() {
            Seq::new(
                (self.last.spec_index() - self.first.spec_index() + 1) as nat,
                |i: int| self.first.spec_index() + i,
            )
        } else {
            Seq::empty()
        }
    }

    /// Number of indices covered by the range
    pub open spec fn spec_len(&self) -> int {
        self.values().len() as int
    }

    /// The range covers the values from `first` to `last`
    pub open spec fn covers(&self, first: int, last: int) -> bool {
        self.values() == Seq::new(
            if first <= last {
                (last - first + 1) as nat
            } else {
                0
            },
            |i: int| first + i,
        )
    }

    /// Create a new inclusive range
    pub fn new(first: I, last: I) -> (r: Self)
        ensures
            r.covers(first.spec_index(), last.spec_index()),
            r.spec_len() == if first.spec_index() <= last.spec_index() {
                last.spec_index() - first.spec_index() + 1
            } else {
                0
            },
            forall|i: int|
                0 <= i < r.spec_len() ==> #[trigger] r.values()[i] == first.spec_index() + i,
    {
        let r = RangeInclusive { first, last, exhausted: false };
        assert(r.values() =~= Seq::new(
            if first.spec_index() <= last.spec_index() {
                (last.spec_index() - first.spec_index() + 1) as nat
            } else {
                0
            },
            |i: int| first.spec_index() + i,
        ));
        r
    }

    /// A range covering integer values lies within the bounds of the index
    pub proof fn lemma_values_bounds(&self)
        ensures
            forall|i: int|
                0 <= i < self.values().len() ==> 0 <= #[trigger] self.values()[i] < I::spec_bound(),
            self.values().len() <= I::spec_bound(),
            self.values().len() <= FIELD_HEIGHT,
    {
        I::lemma_bound();
        self.first.lemma_index_bounds();
        self.last.lemma_index_bounds();
        if !self.exhausted && self.first.spec_index() <= self.last.spec_index() {
            assert(self.values().len() == self.last.spec_index() - self.first.spec_index() + 1);
        }
    }

    /// Number of indices covered by the range
    pub fn len(&self) -> (r: usize)
        ensures
            r == self.spec_len(),
    {
        proof {
            self.first.lemma_index_bounds();
            self.last.lemma_index_bounds();
        }
        let f = self.first.index_value();
        let l = self.last.index_value();
        if !self.exhausted && f <= l {
            l - f + 1
        } else {
            0
        }
    }

    /// Take the first index off the range
    pub fn next(&mut self) -> (r: Option<I>)
        ensures
            r is Some <==> old(self).values().len() > 0,
            r matches Some(i) ==> i.spec_index() == old(self).values()[0],
            final(self).values() == if old(self).values().len() > 0 {
                old(self).values().drop_first()
            } else {
                old(self).values()
            },
    {
        proof {
            self.first.lemma_index_bounds();
            self.last.lemma_index_bounds();
        }
        let first = self.first;
        let f = self.first.index_value();
        let l = self.last.index_value();
        if self.exhausted || f > l {
            None
        } else if f < l {
            match first.forward_checked(1) {
                Some(n) => {
                    self.first = n;
                },
                None => {
                    self.exhausted = true;
                },
            }
            assert(self.values() =~= old(self).values().drop_first());
            Some(first)
        } else {
            self.exhausted = true;
            assert(self.values() =~= old(self).values().drop_first());
            Some(first)
        }
    }

    /// Take the last index off the range
    pub fn next_back(&mut self) -> (r: Option<I>)
        ensures
            r is Some <==> old(self).values().len() > 0,
            r matches Some(i) ==> i.spec_index() == old(self).values().last(),
            final(self).values() == if old(self).values().len() > 0 {
                old(self).values().drop_last()
            } else {
                old(self).values()
            },
    {
        proof {
            self.first.lemma_index_bounds();
            self.last.lemma_index_bounds();
        }
        let last = self.last;
        let f = self.first.index_value();
        let l = self.last.index_value();
        if self.exhausted || f > l {
            None
        } else if f < l {
            match last.backward_checked(1) {
                Some(p) => {
                    self.last = p;
                },
                None => {
                    self.exhausted = true;
                },
            }
            assert(self.values() =~= old(self).values().drop_last());
            Some(last)
        } else {
            self.exhausted = true;
            assert(self.values() =~= old(self).values().drop_last());
            Some(last)
        }
    }

    /// Consume the range, counting its indices
    pub fn count(self) -> (r: usize)
        ensures
            r == self.spec_len(),
    {
        let mut range = self;
        let mut n: usize = 0;
        proof {
            self.lemma_values_bounds();
        }
        while range.len() > 0
            invariant
                n + range.spec_len() == self.spec_len(),
                self.spec_len() <= FIELD_HEIGHT,
            decreases range.spec_len(),
        {
            range.next();
            n = n + 1;
        }
        n
    }

    /// Collect the indices covered by the range, in order
    pub fn to_vec(&self) -> (r: Vec<I>)
        ensures
            r.len() == self.spec_len(),
            forall|i: int| 0 <= i < r.len() ==> #[trigger] r[i].spec_index() == self.values()[i],
    {
        let mut range = *self;
        let mut res: Vec<I> = Vec::new();
        proof {
            self.lemma_values_bounds();
        }
        while range.len() > 0
            invariant
                res.len() + range.spec_len() == self.spec_len(),
                self.spec_len() <= FIELD_HEIGHT,
                forall|i: int| 0 <= i < res.len() ==> #[trigger] res[i].spec_index() == self.values()[i],
                range.values() =~= self.values().skip(res.len() as int),
            decreases range.spec_len(),
        {
            let item = range.next();
            match item {
                Some(x) => {
                    res.push(x);
                },
                None => {},
            }
            assert(range.values() =~= self.values().skip(res.len() as int));
        }
        res
    }
}

/// Range including all rows
pub fn rows() -> (r: RangeInclusive<RowIndex>)
    ensures
        r.spec_len() == FIELD_HEIGHT,
        forall|i: int| 0 <= i < FIELD_HEIGHT ==> #[trigger] r.values()[i] == i,
{
    RangeInclusive::new(RowIndex::top_row(), RowIndex::bottom_row())
}

/// Range including all columns
pub fn columns() -> (r: RangeInclusive<ColumnIndex>)
    ensures
        r.spec_len() == FIELD_WIDTH,
        forall|i: int| 0 <= i < FIELD_WIDTH ==> #[trigger] r.values()[i] == i,
{
    RangeInclusive::new(ColumnIndex::leftmost_column(), ColumnIndex::rightmost_column())
}

/// Create a list of all positions in the given row, from left to right
pub fn complete_row(row: RowIndex) -> (r: Vec<Position>)
    ensures
        r.len() == FIELD_WIDTH,
        forall|i: int| 0 <= i < FIELD_WIDTH ==> #[trigger] pos_view(r[i]) == (row@, i),
{
    let mut res: Vec<Position> = Vec::new();
    let mut c: usize = 0;
    while c < FIELD_WIDTH as usize
        invariant
            c <= FIELD_WIDTH,
            res.len() == c,
            forall|i: int| 0 <= i < c ==> #[trigger] pos_view(res[i]) == (row@, i),
        decreases FIELD_WIDTH - c,
    {
        let col = match ColumnIndex::try_from(c) {
            Ok(col) => col,
            Err(_) => ColumnIndex::leftmost_column(),
        };
        res.push((row, col));
        c = c + 1;
    }
    res
}

/// Colour of viruses and capsule elements
#[derive(Copy, Clone, Debug, PartialEq, Eq, Structural, Hash)]
pub enum Colour {
    Red,
    Yellow,
    Blue,
}

impl Colour {
    /// The colour chosen by a rotation in direction `dir`
    pub open spec fn spec_rotate(self, dir: bool) -> Colour {
        match (self, dir) {
            (Colour::Red, false) => Colour::Yellow,
            (Colour::Red, true) => Colour::Blue,
            (Colour::Yellow, false) => Colour::Blue,
            (Colour::Yellow, true) => Colour::Red,
            (Colour::Blue, false) => Colour::Red,
            (Colour::Blue, true) => Colour::Yellow,
        }
    }

    /// The colour denoted by a number: `0` is red, `1` yellow, any other blue
    pub open spec fn spec_from_number(n: u8) -> Colour {
        if n == 0 {
            Colour::Red
        } else if n == 1 {
            Colour::Yellow
        } else {
            Colour::Blue
        }
    }

    /// Cycle through the colours
    ///
    /// This function chooses another colour based on `dir`. Each colour will be
    /// returned only once for three "rotations" with a given `dir`.
    pub fn rotate(self, dir: bool) -> (r: Colour)
        ensures
            r == self.spec_rotate(dir),
    {
        match (self, dir) {
            (Colour::Red, false) => Colour::Yellow,
            (Colour::Red, true) => Colour::Blue,
            (Colour::Yellow, false) => Colour::Blue,
            (Colour::Yellow, true) => Colour::Red,
            (Colour::Blue, false) => Colour::Red,
            (Colour::Blue, true) => Colour::Yellow,
        }
    }

    /// Map a number to a colour
    ///
    /// Random colours are chosen by drawing a number from `0` to `2`.
    pub fn from_number(n: u8) -> (r: Colour)
        ensures
            r == Colour::spec_from_number(n),
            n == 0 ==> r == Colour::Red,
            n == 1 ==> r == Colour::Yellow,
            n == 2 ==> r == Colour::Blue,
    {
        if n == 0 {
            Colour::Red
        } else if n == 1 {
            Colour::Yellow
        } else {
            Colour::Blue
        }
    }
}

/// Each colour is the colour of exactly one number that can be drawn
///
/// Colours are chosen by drawing a number from `0` to `2`: red is the colour
/// of `0`, yellow of `1` and blue of `2`. So any colour can be drawn, and
/// distinct draws give distinct colours.
pub proof fn lemma_colour_numbers(c: Colour, n: u8, m: u8)
    ensures
        exists|k: u8| k < 3 && #[trigger] Colour::spec_from_number(k) == c,
        n < 3 && m < 3 && Colour::spec_from_number(n) == Colour::spec_from_number(m) ==> n == m,
{
    assert(Colour::spec_from_number(0) == Colour::Red);
    assert(Colour::spec_from_number(1) == Colour::Yellow);
    assert(Colour::spec_from_number(2) == Colour::Blue);
}

/// Three rotations, and no fewer, in one direction lead back to the initial colour.
pub proof fn lemma_colour_rotation(colour: Colour, dir: bool)
    ensures
        colour.spec_rotate(dir) != colour,
        colour.spec_rotate(dir).spec_rotate(dir) != colour,
        colour.spec_rotate(dir).spec_rotate(dir).spec_rotate(dir) == colour,
{
}

/// Rotations in the two directions yield the two other colours.
pub proof fn lemma_colour_dirot(colour: Colour)
    ensures
        colour.spec_rotate(true) != colour,
        colour.spec_rotate(false) != colour,
        colour.spec_rotate(true) != colour.spec_rotate(false),
{
}

/// Trait for potentially coloured tile contents
pub trait PotentiallyColoured {
    /// The colour of the item, if any
    spec fn spec_colour(&self) -> Option<Colour>;

    /// Retrieve the colour of this item
    fn colour(&self) -> (r: Option<Colour>)
        ensures
            r == self.spec_colour(),
    ;
}

impl PotentiallyColoured for Option<Colour> {
    open spec fn spec_colour(&self) -> Option<Colour> {
        *self
    }

    fn colour(&self) -> (r: Option<Colour>) {
        *self
    }
}

} // verus!
