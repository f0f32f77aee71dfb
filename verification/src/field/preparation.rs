//! Field preparation utilities

use vstd::prelude::*;

use rand_pcg::Mcg128Xsl64;

use crate::random::{random_below, random_bool, random_colour};
use crate::util::{
    lemma_colour_rotation, in_field, pos_view, position, Colour, ColumnIndex, Position, RowIndex, FIELD_HEIGHT,
    FIELD_WIDTH,
};

use super::items::{
    free_of_rows_of_four, has_colour, is_horizontal_run, is_vertical_run,
    no_horizontal_row_of_four, no_vertical_row_of_four, row_of_four, row_of_four_len,
    row_of_four_result, ColourGrid,
};
use super::row::Row;
use super::static_field::{last_entry_at, StaticField};

verus! {

broadcast use crate::util::group_index_bounds;

/// The colours of a grid are those of the given entries, later ones taking precedence
pub open spec fn colours_match<G: ColourGrid>(g: &G, entries: Seq<(Position, Colour)>) -> bool {
    forall|p: (int, int)| in_field(p) ==> #[trigger] g.spec_colour_at(p) == last_entry_at(entries, p)
}

/// Field of `Option<Colour>`
struct PreparationField {
    data: Vec<Row<Option<Colour>>>,
}

impl PreparationField {
    #[verifier::type_invariant]
    spec fn inv(self) -> bool {
        self.data.len() == FIELD_HEIGHT
    }

    /// Create a field without any colour
    fn new() -> (r: Self)
        ensures
            forall|p: (int, int)| #[trigger] r.spec_colour_at(p) is None,
    {
        let mut data: Vec<Row<Option<Colour>>> = Vec::new();
        let mut i: usize = 0;
        while i < FIELD_HEIGHT as usize
            invariant
                i <= FIELD_HEIGHT,
                data.len() == i,
                forall|j: int, c: int|
                    0 <= j < i && 0 <= c < FIELD_WIDTH ==> #[trigger] data@[j].spec_get(c) is None,
            decreases FIELD_HEIGHT - i,
        {
            data.push(Row::new(None));
            i = i + 1;
        }
        PreparationField { data }
    }

    /// Replace the colour of the tile at the given position
    fn set(&mut self, pos: Position, colour: Option<Colour>)
        ensures
            forall|p: (int, int)| #[trigger]
                final(self).spec_colour_at(p) == if p == pos_view(pos) {
                    colour
                } else {
                    old(self).spec_colour_at(p)
                },
    {
        proof {
            use_type_invariant(&*self);
        }
        let r = pos.0.index();
        self.data[r].set(pos.1, colour);
    }
}

impl ColourGrid for PreparationField {
    closed spec fn spec_colour_at(&self, p: (int, int)) -> Option<Colour> {
        if in_field(p) {
            self.data@[p.0].spec_get(p.1)
        } else {
            None
        }
    }

    fn colour_at(&self, pos: Position) -> (r: Option<Colour>) {
        proof {
            use_type_invariant(self);
        }
        self.data[pos.0.index()].get(pos.1)
    }
}

/// Colouring the tile at `p` with `c` would give four or more tiles of
/// colour `c` in a row: the tiles from column `a` to `b` of the row other
/// than `p` have colour `c`
pub open spec fn horizontal_line<G: ColourGrid>(g: &G, p: (int, int), c: Colour, a: int, b: int) -> bool {
    &&& 0 <= a <= p.1 <= b < FIELD_WIDTH
    &&& b - a + 1 >= row_of_four_len()
    &&& forall|col: int| a <= col <= b && col != p.1 ==> #[trigger] has_colour(g, (p.0, col), c)
}

/// Colouring the tile at `p` with `c` would give four or more tiles of
/// colour `c` in a column: the tiles from row `a` to `b` of the column other
/// than `p` have colour `c`
pub open spec fn vertical_line<G: ColourGrid>(g: &G, p: (int, int), c: Colour, a: int, b: int) -> bool {
    &&& 0 <= a <= p.0 <= b < FIELD_HEIGHT
    &&& b - a + 1 >= row_of_four_len()
    &&& forall|row: int| a <= row <= b && row != p.0 ==> #[trigger] has_colour(g, (row, p.1), c)
}

/// Colouring the tile at `p` with `c` would make it part of four or more
/// tiles of colour `c` in a row or a column
pub open spec fn completes_row<G: ColourGrid>(g: &G, p: (int, int), c: Colour) -> bool {
    ||| exists|a: int, b: int| #[trigger] horizontal_line(g, p, c, a, b)
    ||| exists|a: int, b: int| #[trigger] vertical_line(g, p, c, a, b)
}

/// The tile at `p` is free, and any colour would complete a row of four there
pub open spec fn blocked<G: ColourGrid>(g: &G, p: (int, int)) -> bool {
    &&& in_field(p)
    &&& g.spec_colour_at(p) is None
    &&& forall|c: Colour| #[trigger] completes_row(g, p, c)
}

/// `after` is `before` with the tile at `p` coloured `c`
pub open spec fn coloured_at<G1: ColourGrid, G2: ColourGrid>(
    before: &G1,
    after: &G2,
    p: (int, int),
    c: Colour,
) -> bool {
    &&& after.spec_colour_at(p) == Some(c)
    &&& forall|q: (int, int)| q != p ==> #[trigger] after.spec_colour_at(q) == before.spec_colour_at(q)
}

/// A row of four through `p` after colouring it shows the colouring completes a row.
proof fn lemma_found_completes<G1: ColourGrid, G2: ColourGrid>(
    before: &G1,
    after: &G2,
    p: (int, int),
    c: Colour,
)
    requires
        coloured_at(before, after, p, c),
        !(no_horizontal_row_of_four(after, p, c) && no_vertical_row_of_four(after, p, c)),
    ensures
        completes_row(before, p, c),
{
    if !no_horizontal_row_of_four(after, p, c) {
        let (a, b) = choose|a: int, b: int|
            is_horizontal_run(after, p.0, a, b, c) && a <= p.1 <= b && !(b - a + 1 < row_of_four_len());
        assert forall|col: int| a <= col <= b && col != p.1 implies #[trigger] has_colour(before, (p.0, col), c) by {
            assert(has_colour(after, (p.0, col), c));
        }
        assert(horizontal_line(before, p, c, a, b));
    } else {
        let (a, b) = choose|a: int, b: int|
            is_vertical_run(after, p.1, a, b, c) && a <= p.0 <= b && !(b - a + 1 < row_of_four_len());
        assert forall|row: int| a <= row <= b && row != p.0 implies #[trigger] has_colour(before, (row, p.1), c) by {
            assert(has_colour(after, (row, p.1), c));
        }
        assert(vertical_line(before, p, c, a, b));
    }
}

/// A run of colour `c` in a row extends to the left up to a maximal run.
proof fn lemma_extend_left<G: ColourGrid>(g: &G, row: int, a: int, b: int, c: Colour) -> (a2: int)
    requires
        0 <= a <= b < FIELD_WIDTH,
        forall|col: int| a <= col <= b ==> #[trigger] has_colour(g, (row, col), c),
    ensures
        0 <= a2 <= a,
        forall|col: int| a2 <= col <= b ==> #[trigger] has_colour(g, (row, col), c),
        a2 == 0 || !has_colour(g, (row, a2 - 1), c),
    decreases a,
{
    if a == 0 || !has_colour(g, (row, a - 1), c) {
        a
    } else {
        assert forall|col: int| a - 1 <= col <= b implies #[trigger] has_colour(g, (row, col), c) by {}
        lemma_extend_left(g, row, a - 1, b, c)
    }
}

/// A run of colour `c` in a row extends to the right up to a maximal run.
proof fn lemma_extend_right<G: ColourGrid>(g: &G, row: int, a: int, b: int, c: Colour) -> (b2: int)
    requires
        0 <= a <= b < FIELD_WIDTH,
        forall|col: int| a <= col <= b ==> #[trigger] has_colour(g, (row, col), c),
    ensures
        b <= b2 < FIELD_WIDTH,
        forall|col: int| a <= col <= b2 ==> #[trigger] has_colour(g, (row, col), c),
        b2 == FIELD_WIDTH - 1 || !has_colour(g, (row, b2 + 1), c),
    decreases FIELD_WIDTH - b,
{
    if b == FIELD_WIDTH - 1 || !has_colour(g, (row, b + 1), c) {
        b
    } else {
        assert forall|col: int| a <= col <= b + 1 implies #[trigger] has_colour(g, (row, col), c) by {}
        lemma_extend_right(g, row, a, b + 1, c)
    }
}

/// A run of colour `c` in a column extends upwards up to a maximal run.
proof fn lemma_extend_up<G: ColourGrid>(g: &G, column: int, a: int, b: int, c: Colour) -> (a2: int)
    requires
        0 <= a <= b < FIELD_HEIGHT,
        forall|row: int| a <= row <= b ==> #[trigger] has_colour(g, (row, column), c),
    ensures
        0 <= a2 <= a,
        forall|row: int| a2 <= row <= b ==> #[trigger] has_colour(g, (row, column), c),
        a2 == 0 || !has_colour(g, (a2 - 1, column), c),
    decreases a,
{
    if a == 0 || !has_colour(g, (a - 1, column), c) {
        a
    } else {
        assert forall|row: int| a - 1 <= row <= b implies #[trigger] has_colour(g, (row, column), c) by {}
        lemma_extend_up(g, column, a - 1, b, c)
    }
}

/// A run of colour `c` in a column extends downwards up to a maximal run.
proof fn lemma_extend_down<G: ColourGrid>(g: &G, column: int, a: int, b: int, c: Colour) -> (b2: int)
    requires
        0 <= a <= b < FIELD_HEIGHT,
        forall|row: int| a <= row <= b ==> #[trigger] has_colour(g, (row, column), c),
    ensures
        b <= b2 < FIELD_HEIGHT,
        forall|row: int| a <= row <= b2 ==> #[trigger] has_colour(g, (row, column), c),
        b2 == FIELD_HEIGHT - 1 || !has_colour(g, (b2 + 1, column), c),
    decreases FIELD_HEIGHT - b,
{
    if b == FIELD_HEIGHT - 1 || !has_colour(g, (b + 1, column), c) {
        b
    } else {
        assert forall|row: int| a <= row <= b + 1 implies #[trigger] has_colour(g, (row, column), c) by {}
        lemma_extend_down(g, column, a, b + 1, c)
    }
}

/// Colouring a tile such that it completes a row gives a row of four through it.
proof fn lemma_completes_found<G1: ColourGrid, G2: ColourGrid>(
    before: &G1,
    after: &G2,
    p: (int, int),
    c: Colour,
)
    requires
        coloured_at(before, after, p, c),
        completes_row(before, p, c),
    ensures
        !(no_horizontal_row_of_four(after, p, c) && no_vertical_row_of_four(after, p, c)),
{
    if exists|a: int, b: int| #[trigger] horizontal_line(before, p, c, a, b) {
        let (a, b) = choose|a: int, b: int| #[trigger] horizontal_line(before, p, c, a, b);
        assert forall|col: int| a <= col <= b implies #[trigger] has_colour(after, (p.0, col), c) by {
            if col != p.1 {
                assert(has_colour(before, (p.0, col), c));
            }
        }
        let a2 = lemma_extend_left(after, p.0, a, b, c);
        let b2 = lemma_extend_right(after, p.0, a2, b, c);
        assert(is_horizontal_run(after, p.0, a2, b2, c));
    } else {
        let (a, b) = choose|a: int, b: int| #[trigger] vertical_line(before, p, c, a, b);
        assert forall|row: int| a <= row <= b implies #[trigger] has_colour(after, (row, p.1), c) by {
            if row != p.0 {
                assert(has_colour(before, (row, p.1), c));
            }
        }
        let a2 = lemma_extend_up(after, p.1, a, b, c);
        let b2 = lemma_extend_down(after, p.1, a2, b, c);
        assert(is_vertical_run(after, p.1, a2, b2, c));
    }
}

/// Completing a row stays so when more tiles are coloured.
proof fn lemma_completes_grows<G1: ColourGrid, G2: ColourGrid>(g1: &G1, g2: &G2, p: (int, int), c: Colour)
    requires
        in_field(p),
        completes_row(g1, p, c),
        forall|q: (int, int)| in_field(q) && q != p && #[trigger] has_colour(g1, q, c) ==> has_colour(g2, q, c),
    ensures
        completes_row(g2, p, c),
{
    if exists|a: int, b: int| #[trigger] horizontal_line(g1, p, c, a, b) {
        let (a, b) = choose|a: int, b: int| #[trigger] horizontal_line(g1, p, c, a, b);
        assert forall|col: int| a <= col <= b && col != p.1 implies #[trigger] has_colour(g2, (p.0, col), c) by {
            assert(has_colour(g1, (p.0, col), c));
        }
        assert(horizontal_line(g2, p, c, a, b));
    } else {
        let (a, b) = choose|a: int, b: int| #[trigger] vertical_line(g1, p, c, a, b);
        assert forall|row: int| a <= row <= b && row != p.0 implies #[trigger] has_colour(g2, (row, p.1), c) by {
            assert(has_colour(g1, (row, p.1), c));
        }
        assert(vertical_line(g2, p, c, a, b));
    }
}

/// Grids with the same free tiles in a range of indices have the same number of them.
proof fn lemma_free_between_same<G1: ColourGrid, G2: ColourGrid>(g1: &G1, g2: &G2, lo: int, hi: int)
    requires
        forall|q: (int, int)| #[trigger] g1.spec_colour_at(q) == g2.spec_colour_at(q),
    ensures
        free_between(g1, lo, hi) == free_between(g2, lo, hi),
    decreases hi - lo,
{
    if hi > lo {
        lemma_free_between_same(g1, g2, lo, hi - 1);
        assert(g1.spec_colour_at(tile_of_index(hi - 1)) == g2.spec_colour_at(tile_of_index(hi - 1)));
    }
}

/// In a grid without colours, every tile of a range of indices is free.
proof fn lemma_free_between_empty<G: ColourGrid>(g: &G, lo: int, hi: int)
    requires
        forall|q: (int, int)| #[trigger] g.spec_colour_at(q) is None,
        lo <= hi,
    ensures
        free_between(g, lo, hi) == hi - lo,
    decreases hi - lo,
{
    if hi > lo {
        lemma_free_between_empty(g, lo, hi - 1);
        assert(g.spec_colour_at(tile_of_index(hi - 1)) is None);
    }
}

/// Colouring a free tile with an index in the range leaves one free tile less.
proof fn lemma_free_between_colour<G1: ColourGrid, G2: ColourGrid>(
    g1: &G1,
    g2: &G2,
    t: (int, int),
    c: Colour,
    lo: int,
    hi: int,
)
    requires
        in_field(t),
        g1.spec_colour_at(t) is None,
        coloured_at(g1, g2, t, c),
        0 <= lo,
        hi <= FIELD_HEIGHT * FIELD_WIDTH,
    ensures
        free_between(g2, lo, hi) + (if lo <= t.0 * FIELD_WIDTH + t.1 < hi {
            1int
        } else {
            0int
        }) == free_between(g1, lo, hi),
    decreases hi - lo,
{
    if hi > lo {
        lemma_free_between_colour(g1, g2, t, c, lo, hi - 1);
        let i = hi - 1;
        assert(tile_of_index(i) == t <==> i == t.0 * FIELD_WIDTH + t.1) by (nonlinear_arith)
            requires
                0 <= i < 128,
                0 <= t.0 < 16,
                0 <= t.1 < 8,
                tile_of_index(i) == (i / 8, i % 8),
        ;
    }
}

/// Prepare a random distribution of coloured tiles
///
/// This function returns a list of positions and colours intended for
/// initializing a field with viruses. The list will hold at most
/// `number_of_virs` entries, all with distinct positions in rows from the given
/// `top_row` to the bottom row. The positions and colours as well as their
/// ordering will be random.
///
/// The returned positions and colours will not contain horizontal or vertical
/// configurations of four or more tiles of the same colour: a position whose
/// every colour would complete such a configuration is left free. Fewer than
/// `number_of_virs` entries are returned only where such a position remains.
pub fn prepare_field(rng: &mut Mcg128Xsl64, top_row: RowIndex, number_of_virs: u8) -> (r: Vec<
    (Position, Colour),
>)
    requires
        number_of_virs <= (FIELD_HEIGHT - top_row@) * FIELD_WIDTH,
    ensures
        r.len() <= number_of_virs,
        forall|i: int| 0 <= i < r.len() ==> (#[trigger] r[i]).0.0@ >= top_row@,
        forall|i: int, j: int|
            0 <= i < j < r.len() ==> pos_view(#[trigger] r[i].0) != pos_view(#[trigger] r[j].0),
        forall|g: StaticField| #[trigger]
            colours_match(&g, r@) ==> free_of_rows_of_four(&g),
        r.len() < number_of_virs ==> exists|p: (int, int)|
            #![trigger last_entry_at(r@, p)]
            {
                &&& in_field(p)
                &&& p.0 >= top_row@
                &&& last_entry_at(r@, p) is None
                &&& forall|g: StaticField, c: Colour|
                    colours_match(&g, r@) ==> #[trigger] completes_row(&g, p, c)
            },
{
    let mut field = PreparationField::new();
    let area: usize = (FIELD_HEIGHT as usize - top_row.index()) * (FIELD_WIDTH as usize);
    let ghost lo = top_row@ * FIELD_WIDTH;
    let mut res: Vec<(Position, Colour)> = Vec::new();
    let mut virus_count: u8 = 0;
    proof {
        assert(free_of_rows_of_four(&field));
        lemma_free_between_empty(&field, lo, FIELD_HEIGHT * FIELD_WIDTH);
    }
    while virus_count < number_of_virs
        invariant
            number_of_virs <= area,
            area == (FIELD_HEIGHT - top_row@) * FIELD_WIDTH,
            lo == top_row@ * FIELD_WIDTH,
            virus_count <= number_of_virs,
            res.len() <= virus_count,
            forall|i: int| 0 <= i < res.len() ==> (#[trigger] res[i]).0.0@ >= top_row@,
            forall|i: int, j: int|
                0 <= i < j < res.len() ==> pos_view(#[trigger] res[i].0) != pos_view(
                    #[trigger] res[j].0,
                ),
            colours_match(&field, res@),
            free_of_rows_of_four(&field),
            free_between(&field, lo, FIELD_HEIGHT * FIELD_WIDTH) + res.len() == area,
            res.len() < virus_count ==> exists|p: (int, int)|
                #[trigger] blocked(&field, p) && p.0 >= top_row@,
        decreases number_of_virs - virus_count,
    {
        let colour = random_colour(rng);
        let rotation_dir = random_bool(rng);
        let unfilled = area - virus_count as usize;
        let nth = random_below(rng, unfilled);
        let ghost before = field;
        let ghost res_before = res@;
        match nth_free(&field, top_row, nth) {
            Some(pos) => {
                let ghost t = pos_view(pos);
                proof {
                    lemma_no_entry_at(res@, t);
                }
                match place_colour(&mut field, pos, colour, rotation_dir) {
                    Some(c) => {
                        let ghost old_res = res@;
                        res.push((pos, c));
                        proof {
                            assert(res@.drop_last() =~= old_res);
                            assert forall|q: (int, int)| in_field(q) implies #[trigger]
                                field.spec_colour_at(q) == last_entry_at(res@, q) by {}
                            assert(coloured_at(&before, &field, t, c));
                            lemma_free_between_colour(
                                &before,
                                &field,
                                t,
                                c,
                                lo,
                                FIELD_HEIGHT * FIELD_WIDTH,
                            );
                            assert(lo <= t.0 * FIELD_WIDTH + t.1 < FIELD_HEIGHT * FIELD_WIDTH)
                                by (nonlinear_arith)
                                requires
                                    lo == top_row@ * 8,
                                    top_row@ <= t.0 < 16,
                                    0 <= t.1 < 8,
                            ;
                            if res_before.len() < virus_count {
                                let b = choose|b: (int, int)| #[trigger] blocked(&before, b) && b.0 >= top_row@;
                                if b == t {
                                    assert(completes_row(&before, t, c));
                                    lemma_completes_found(&before, &field, t, c);
                                    assert(has_colour(&field, t, c));
                                }
                                assert forall|d: Colour| #[trigger] completes_row(&field, b, d) by {
                                    assert(completes_row(&before, b, d));
                                    lemma_completes_grows(&before, &field, b, d);
                                }
                                assert(blocked(&field, b));
                            }
                        }
                    },
                    None => {
                        proof {
                            lemma_free_between_same(&before, &field, lo, FIELD_HEIGHT * FIELD_WIDTH);
                            assert forall|d: Colour| #[trigger] completes_row(&field, t, d) by {
                                assert(completes_row(&before, t, d));
                                lemma_completes_grows(&before, &field, t, d);
                            }
                            assert(blocked(&field, t));
                        }
                    },
                }
            },
            None => {
                proof {
                    assert(false);
                }
            },
        }
        virus_count = virus_count + 1;
    }
    proof {
        broadcast use StaticField::lemma_tile_outside;

        assert forall|g: StaticField| #[trigger]
            colours_match(&g, res@) implies free_of_rows_of_four(&g) by {
            lemma_same_colours_free(&field, &g);
        }
        if res.len() < number_of_virs {
            let b = choose|b: (int, int)| #[trigger] blocked(&field, b) && b.0 >= top_row@;
            assert(last_entry_at(res@, b) is None);
            assert forall|g: StaticField, c: Colour| colours_match(&g, res@) implies #[trigger] completes_row(&g, b, c) by {
                assert(completes_row(&field, b, c));
                assert forall|q: (int, int)| in_field(q) && q != b && #[trigger] has_colour(&field, q, c) implies has_colour(&g, q, c) by {
                    assert(g.spec_colour_at(q) == last_entry_at(res@, q));
                }
                lemma_completes_grows(&field, &g, b, c);
            }
        }
    }
    res
}

/// The coordinates of the tile with the given index, counting tiles row by
/// row, each row from the left to the right
pub open spec fn tile_of_index(i: int) -> (int, int) {
    (i / (FIELD_WIDTH as int), i % (FIELD_WIDTH as int))
}

/// The number of free tiles with an index from `lo` up to, but not including, `hi`
pub open spec fn free_between<G: ColourGrid>(g: &G, lo: int, hi: int) -> nat
    decreases hi - lo,
{
    if hi <= lo {
        0
    } else {
        free_between(g, lo, hi - 1) + if g.spec_colour_at(tile_of_index(hi - 1)) is None {
            1nat
        } else {
            0nat
        }
    }
}

/// Counting free tiles over a longer range counts no fewer.
proof fn lemma_free_between_grows<G: ColourGrid>(g: &G, lo: int, a: int, b: int)
    requires
        a <= b,
    ensures
        free_between(g, lo, a) <= free_between(g, lo, b),
    decreases b - a,
{
    if a < b {
        lemma_free_between_grows(g, lo, a, b - 1);
    }
}

/// Each free tile is the `n`-th free tile for exactly one number `n` that
/// can be drawn
///
/// Number the free tiles in the rows from `top_row` to the bottom row from
/// zero, row by row, each row from the left to the right: the number of a
/// free tile is the count of free tiles before it. Every free tile gets a
/// number below the count of all free tiles in these rows, and no two free
/// tiles get the same number. So every free tile in these rows is the tile
/// picked for exactly one draw from `0` up to that count.
pub proof fn lemma_free_tiles_numbered<G: ColourGrid>(g: &G, top_row: int, p: (int, int), q: (int, int))
    requires
        0 <= top_row < FIELD_HEIGHT,
        in_field(p),
        p.0 >= top_row,
        g.spec_colour_at(p) is None,
        in_field(q),
        q.0 >= top_row,
        g.spec_colour_at(q) is None,
    ensures
        free_between(g, top_row * FIELD_WIDTH, p.0 * FIELD_WIDTH + p.1) < free_between(
            g,
            top_row * FIELD_WIDTH,
            FIELD_HEIGHT * FIELD_WIDTH,
        ),
        free_between(g, top_row * FIELD_WIDTH, p.0 * FIELD_WIDTH + p.1) == free_between(
            g,
            top_row * FIELD_WIDTH,
            q.0 * FIELD_WIDTH + q.1,
        ) ==> p == q,
{
    let lo = top_row * FIELD_WIDTH;
    lemma_free_tile_counted(g, top_row, p);
    lemma_free_tile_counted(g, top_row, q);
    let i = p.0 * FIELD_WIDTH + p.1;
    let j = q.0 * FIELD_WIDTH + q.1;
    lemma_free_between_grows(g, lo, i + 1, FIELD_HEIGHT * FIELD_WIDTH);
    if i < j {
        lemma_free_between_grows(g, lo, i + 1, j);
    } else if j < i {
        lemma_free_between_grows(g, lo, j + 1, i);
    } else {
        assert(p == q) by (nonlinear_arith)
            requires
                p.0 * 8 + p.1 == q.0 * 8 + q.1,
                0 <= p.1 < 8,
                0 <= q.1 < 8,
        ;
    }
}

/// A free tile in the rows from `top_row` on is counted when the range
/// reaches past it.
proof fn lemma_free_tile_counted<G: ColourGrid>(g: &G, top_row: int, p: (int, int))
    requires
        0 <= top_row < FIELD_HEIGHT,
        in_field(p),
        p.0 >= top_row,
        g.spec_colour_at(p) is None,
    ensures
        top_row * FIELD_WIDTH <= p.0 * FIELD_WIDTH + p.1 < FIELD_HEIGHT * FIELD_WIDTH,
        free_between(g, top_row * FIELD_WIDTH, p.0 * FIELD_WIDTH + p.1 + 1) == free_between(
            g,
            top_row * FIELD_WIDTH,
            p.0 * FIELD_WIDTH + p.1,
        ) + 1,
{
    let i = p.0 * FIELD_WIDTH + p.1;
    assert(top_row * 8 <= i < 128 && tile_of_index(i) == p) by (nonlinear_arith)
        requires
            i == p.0 * 8 + p.1,
            top_row <= p.0 < 16,
            0 <= p.1 < 8,
            tile_of_index(i) == (i / 8, i % 8),
    ;
}

/// Find the `n`-th free tile in the rows from `top_row` to the bottom row
///
/// Tiles are counted row by row, each row from the left to the right, starting
/// at zero. The function returns `None` if there are no more than `n` free
/// tiles in these rows.
fn nth_free(field: &PreparationField, top_row: RowIndex, n: usize) -> (r: Option<Position>)
    ensures
        r matches Some(p) ==> {
            &&& field.spec_colour_at(pos_view(p)) is None
            &&& p.0@ >= top_row@
            &&& free_between(field, top_row@ * FIELD_WIDTH, p.0@ * FIELD_WIDTH + p.1@) == n
        },
        r is None ==> free_between(
            field,
            top_row@ * FIELD_WIDTH,
            FIELD_HEIGHT * FIELD_WIDTH,
        ) <= n,
{
    let ghost lo = top_row@ * FIELD_WIDTH;
    let mut count: usize = 0;
    let mut row: usize = top_row.index();
    while row < FIELD_HEIGHT as usize
        invariant
            top_row@ <= row <= FIELD_HEIGHT,
            lo == top_row@ * FIELD_WIDTH,
            count == free_between(field, lo, row * FIELD_WIDTH),
            count <= n,
        decreases FIELD_HEIGHT - row,
    {
        let mut col: usize = 0;
        while col < FIELD_WIDTH as usize
            invariant
                top_row@ <= row < FIELD_HEIGHT,
                col <= FIELD_WIDTH,
                lo == top_row@ * FIELD_WIDTH,
                count == free_between(field, lo, row * FIELD_WIDTH + col),
                count <= n,
            decreases FIELD_WIDTH - col,
        {
            let pos = position(row, col);
            let ghost i = row * FIELD_WIDTH + col;
            assert(tile_of_index(i) == (row as int, col as int)) by (nonlinear_arith)
                requires
                    i == row * 8 + col,
                    0 <= col < 8,
                    tile_of_index(i) == (i / 8, i % 8),
            ;
            assert(lo <= i) by (nonlinear_arith)
                requires
                    lo == top_row@ * 8,
                    top_row@ <= row,
                    i == row * 8 + col,
                    col >= 0,
            ;
            if field.colour_at(pos).is_none() {
                if count == n {
                    return Some(pos);
                }
                count = count + 1;
            }
            col = col + 1;
        }
        row = row + 1;
    }
    None
}

/// Colour the free tile at `pos` such that it completes no row of four
///
/// The colour `start` is tried first, then the others, rotating in the given
/// direction. The function returns the first colour which completes no row
/// of four. If every colour would complete a row of four, the tile is left
/// free and the function returns `None`.
fn place_colour(field: &mut PreparationField, pos: Position, start: Colour, dir: bool) -> (r:
    Option<Colour>)
    requires
        old(field).spec_colour_at(pos_view(pos)) is None,
        free_of_rows_of_four(&*old(field)),
    ensures
        free_of_rows_of_four(&*final(field)),
        forall|p: (int, int)| #[trigger]
            final(field).spec_colour_at(p) == if p == pos_view(pos) {
                r
            } else {
                old(field).spec_colour_at(p)
            },
        r matches Some(c) ==> (c == start || (completes_row(&*old(field), pos_view(pos), start)
            && c == start.spec_rotate(dir)) || (completes_row(&*old(field), pos_view(pos), start)
            && completes_row(&*old(field), pos_view(pos), start.spec_rotate(dir)) && c
            == start.spec_rotate(dir).spec_rotate(dir))),
        r is None ==> forall|c: Colour| #[trigger] completes_row(&*old(field), pos_view(pos), c),
{
    let ghost before = *field;
    let ghost first = start;
    let ghost p = pos_view(pos);
    let mut colour = start;
    let mut attempts: u8 = 0;
    while attempts < 3
        invariant
            before == *old(field),
            first == start,
            p == pos_view(pos),
            in_field(p),
            before.spec_colour_at(p) is None,
            free_of_rows_of_four(&before),
            forall|q: (int, int)|
                q != p ==> #[trigger] field.spec_colour_at(q) == before.spec_colour_at(q),
            attempts <= 3,
            attempts == 0 ==> colour == first,
            attempts == 1 ==> colour == first.spec_rotate(dir) && completes_row(&before, p, first),
            attempts == 2 ==> colour == first.spec_rotate(dir).spec_rotate(dir) && completes_row(
                &before,
                p,
                first,
            ) && completes_row(&before, p, first.spec_rotate(dir)),
            attempts == 3 ==> completes_row(&before, p, first) && completes_row(
                &before,
                p,
                first.spec_rotate(dir),
            ) && completes_row(&before, p, first.spec_rotate(dir).spec_rotate(dir)),
        decreases 3 - attempts,
    {
        field.set(pos, Some(colour));
        let found = row_of_four(&*field, pos);
        if found.is_none() {
            proof {
                assert(has_colour(&*field, p, colour));
                lemma_place_keeps_free(&before, &*field, p, colour);
            }
            return Some(colour);
        }
        proof {
            assert(coloured_at(&before, &*field, p, colour));
            lemma_found_completes(&before, &*field, p, colour);
        }
        colour = colour.rotate(dir);
        attempts = attempts + 1;
    }
    field.set(pos, None);
    proof {
        lemma_same_colours_free(&before, &*field);
        lemma_colour_rotation(first, dir);
        assert forall|c: Colour| #[trigger] completes_row(&before, p, c) by {
            match (first, dir) {
                (Colour::Red, _) | (Colour::Yellow, _) | (Colour::Blue, _) => {
                    match c {
                        Colour::Red => {},
                        Colour::Yellow => {},
                        Colour::Blue => {},
                    }
                },
            }
        }
    }
    None
}

/// Grids with the same colours hold the same runs.
proof fn lemma_same_colours_free<G1: ColourGrid, G2: ColourGrid>(g1: &G1, g2: &G2)
    requires
        forall|p: (int, int)| in_field(p) ==> #[trigger] g1.spec_colour_at(p) == g2.spec_colour_at(p),
        forall|p: (int, int)| !in_field(p) ==> #[trigger] g1.spec_colour_at(p) is None,
        forall|p: (int, int)| !in_field(p) ==> #[trigger] g2.spec_colour_at(p) is None,
        free_of_rows_of_four(g1),
    ensures
        free_of_rows_of_four(g2),
{
    assert forall|p: (int, int), col: Colour|
        in_field(p) && #[trigger] has_colour(g2, p, col) implies no_horizontal_row_of_four(
        g2,
        p,
        col,
    ) && no_vertical_row_of_four(g2, p, col) by {
        assert(has_colour(g1, p, col));
        assert forall|a: int, b: int|
            is_horizontal_run(g2, p.0, a, b, col) && a <= p.1 <= b implies b - a + 1 < 4 by {
            assert forall|c: int| a <= c <= b implies #[trigger] has_colour(g1, (p.0, c), col) by {
                assert(has_colour(g2, (p.0, c), col));
            }
            assert(a == 0 || !has_colour(g1, (p.0, a - 1), col));
            assert(b == FIELD_WIDTH - 1 || !has_colour(g1, (p.0, b + 1), col));
            assert(is_horizontal_run(g1, p.0, a, b, col));
        }
        assert forall|a: int, b: int|
            is_vertical_run(g2, p.1, a, b, col) && a <= p.0 <= b implies b - a + 1 < 4 by {
            assert forall|r: int| a <= r <= b implies #[trigger] has_colour(g1, (r, p.1), col) by {
                assert(has_colour(g2, (r, p.1), col));
            }
            assert(a == 0 || !has_colour(g1, (a - 1, p.1), col));
            assert(b == FIELD_HEIGHT - 1 || !has_colour(g1, (b + 1, p.1), col));
            assert(is_vertical_run(g1, p.1, a, b, col));
        }
    }
}

/// Colouring a free tile such that it completes no row of four keeps a grid
/// free of rows of four.
proof fn lemma_place_keeps_free<G1: ColourGrid, G2: ColourGrid>(
    before: &G1,
    after: &G2,
    pos: (int, int),
    colour: Colour,
)
    requires
        in_field(pos),
        before.spec_colour_at(pos) is None,
        after.spec_colour_at(pos) == Some(colour),
        forall|p: (int, int)| p != pos ==> #[trigger] after.spec_colour_at(p) == before.spec_colour_at(p),
        free_of_rows_of_four(before),
        no_horizontal_row_of_four(after, pos, colour),
        no_vertical_row_of_four(after, pos, colour),
    ensures
        free_of_rows_of_four(after),
{
    assert forall|p: (int, int), col: Colour|
        in_field(p) && #[trigger] has_colour(after, p, col) implies no_horizontal_row_of_four(
        after,
        p,
        col,
    ) && no_vertical_row_of_four(after, p, col) by {
        if p != pos {
            assert(has_colour(before, p, col));
            assert forall|a: int, b: int|
                is_horizontal_run(after, p.0, a, b, col) && a <= p.1 <= b implies b - a + 1 < 4 by {
                if p.0 == pos.0 && a <= pos.1 <= b {
                    assert(has_colour(after, pos, col));
                    assert(is_horizontal_run(after, pos.0, a, b, colour));
                } else {
                    assert forall|c: int| a <= c <= b implies #[trigger] has_colour(
                        before,
                        (p.0, c),
                        col,
                    ) by {
                        assert(has_colour(after, (p.0, c), col));
                    }
                    if a > 0 {
                        assert(!has_colour(after, (p.0, a - 1), col));
                        if (p.0, a - 1) == pos {
                            assert(before.spec_colour_at((p.0, a - 1)) is None);
                        }
                    }
                    if b < FIELD_WIDTH - 1 {
                        assert(!has_colour(after, (p.0, b + 1), col));
                        if (p.0, b + 1) == pos {
                            assert(before.spec_colour_at((p.0, b + 1)) is None);
                        }
                    }
                    assert(is_horizontal_run(before, p.0, a, b, col));
                }
            }
            assert forall|a: int, b: int|
                is_vertical_run(after, p.1, a, b, col) && a <= p.0 <= b implies b - a + 1 < 4 by {
                if p.1 == pos.1 && a <= pos.0 <= b {
                    assert(has_colour(after, pos, col));
                    assert(is_vertical_run(after, pos.1, a, b, colour));
                } else {
                    assert forall|r: int| a <= r <= b implies #[trigger] has_colour(
                        before,
                        (r, p.1),
                        col,
                    ) by {
                        assert(has_colour(after, (r, p.1), col));
                    }
                    if a > 0 {
                        assert(!has_colour(after, (a - 1, p.1), col));
                        if (a - 1, p.1) == pos {
                            assert(before.spec_colour_at((a - 1, p.1)) is None);
                        }
                    }
                    if b < FIELD_HEIGHT - 1 {
                        assert(!has_colour(after, (b + 1, p.1), col));
                        if (b + 1, p.1) == pos {
                            assert(before.spec_colour_at((b + 1, p.1)) is None);
                        }
                    }
                    assert(is_vertical_run(before, p.1, a, b, col));
                }
            }
        }
    }
}

/// A position without an entry is the position of no entry.
proof fn lemma_no_entry_at(entries: Seq<(Position, Colour)>, p: (int, int))
    requires
        last_entry_at(entries, p) is None,
    ensures
        forall|i: int| 0 <= i < entries.len() ==> pos_view(#[trigger] entries[i].0) != p,
    decreases entries.len(),
{
    if entries.len() > 0 {
        lemma_no_entry_at(entries.drop_last(), p);
        assert forall|i: int| 0 <= i < entries.len() implies pos_view(#[trigger] entries[i].0)
            != p by {
            if i < entries.len() - 1 {
                assert(entries[i] == entries.drop_last()[i]);
            }
        }
    }
}

} // verus!
