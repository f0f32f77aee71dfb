//! Discovery of unsupported capsule elements after an elimination

use vstd::prelude::*;

use crate::game::round::{lower_row, spec_lower_row};
use crate::util::{
    in_field, neighbour, pos_view, spec_neighbour, Direction, Position, RowIndex, FIELD_HEIGHT,
    FIELD_WIDTH,
};

use super::items::CapsuleElement;
use super::moving_field::{shifted_down, MovingField, MovingRowIndex};
use super::static_field::{StaticField, TileContents};
use super::tick::{
    eliminated_tile, is_supported, lemma_elimination_keeps_partnership, lemma_moving_consistent_at,
    lemma_settle_keeps_partnership, lemma_static_consistent_at, lemma_tick_keeps_partnership,
    moving_consistent, moving_partner, no_overlap, row_has_element, rows_positions, settle_closed,
    settle_transfer, static_consistent, static_partner, Eliminated,
};

verus! {

broadcast use crate::util::group_index_bounds;

/// The element at `p` rests on the bottom of the field or on an occupied tile
pub open spec fn rests(s: &StaticField, p: (int, int)) -> bool {
    p.0 == FIELD_HEIGHT - 1 || s.tile((p.0 + 1, p.1)).spec_is_occupied()
}

/// The element at `p` is bound to a horizontal neighbour which rests
pub open spec fn partner_rests(s: &StaticField, p: (int, int)) -> bool {
    match s.tile(p).spec_element() {
        Some(e) => match e.spec_partner() {
            Some(Direction::Left) => in_field(spec_neighbour(p, Direction::Left)) && rests(
                s,
                spec_neighbour(p, Direction::Left),
            ),
            Some(Direction::Right) => in_field(spec_neighbour(p, Direction::Right)) && rests(
                s,
                spec_neighbour(p, Direction::Right),
            ),
            _ => false,
        },
        None => false,
    }
}

/// The element at `p` is held in place: it rests itself, or its horizontal
/// partner does
///
/// A partner above does not hold an element, since it would rest on that
/// element in turn.
pub open spec fn is_held(s: &StaticField, p: (int, int)) -> bool {
    rests(s, p) || partner_rests(s, p)
}

/// Tiles whose elements may lose their hold when the tile at `x` is freed
///
/// These are the tiles next to `x` and next to the tile above `x`, and the
/// tile above `x` itself.
pub open spec fn unsettle_candidate(x: (int, int), c: (int, int)) -> bool {
    let above = spec_neighbour(x, Direction::Above);
    ||| c == above
    ||| c == spec_neighbour(x, Direction::Left)
    ||| c == spec_neighbour(x, Direction::Right)
    ||| c == spec_neighbour(above, Direction::Left)
    ||| c == spec_neighbour(above, Direction::Right)
}

/// The capsule element at `p` left the static field
pub open spec fn unsettled_at(s0: &StaticField, s: &StaticField, p: (int, int)) -> bool {
    s0.tile(p) is CapsuleElement && s.tile(p) == TileContents::Empty
}

/// Both fields reflect the elements unsettled: they moved from the static to
/// the moving field, everything else stayed
pub open spec fn unsettle_transfer(
    m0: &MovingField,
    s0: &StaticField,
    m: &MovingField,
    s: &StaticField,
) -> bool {
    forall|p: (int, int)|
        #![trigger m.tile(p)]
        #![trigger s.tile(p)]
        (unsettled_at(s0, s, p) && m.tile(p) == s0.tile(p).spec_element()) || (s.tile(p) == s0.tile(
            p,
        ) && m.tile(p) == m0.tile(p))
}

/// An unsettled element bound to an element which refers back took it along
pub open spec fn unsettle_takes_partners(s0: &StaticField, s: &StaticField) -> bool {
    forall|p: (int, int)|
        #[trigger] unsettled_at(s0, s, p) && static_partner(s0, p) is Some ==> {
            let q = static_partner(s0, p)->0;
            s0.tile(q).spec_element() is Some && static_partner(s0, q) == Some(p) ==> unsettled_at(
                s0,
                s,
                q,
            )
        }
}

/// Every unsettled element hangs above a free tile
pub open spec fn unsettle_sound(s0: &StaticField, s: &StaticField) -> bool {
    forall|p: (int, int)|
        #[trigger] unsettled_at(s0, s, p) ==> in_field(p) && p.0 < FIELD_HEIGHT - 1 && !s.tile(
            (p.0 + 1, p.1),
        ).spec_is_occupied()
}

/// Every element next to a freed tile, or next to the tile above, is held
///
/// Freed tiles are the eliminated ones and those of unsettled elements.
pub open spec fn unsettle_complete(
    s0: &StaticField,
    s: &StaticField,
    eliminated: Seq<(int, int)>,
) -> bool {
    forall|x: (int, int), c: (int, int)|
        #![trigger unsettle_candidate(x, c), eliminated.contains(x)]
        #![trigger unsettle_candidate(x, c), unsettled_at(s0, s, x)]
        (eliminated.contains(x) || unsettled_at(s0, s, x)) && unsettle_candidate(x, c) && in_field(c)
            && s.tile(c) is CapsuleElement ==> is_held(s, c)
}

/// `lowest` is the lowest row holding an unsettled element, if any
pub open spec fn unsettle_lowest(s0: &StaticField, s: &StaticField, lowest: Option<RowIndex>) -> bool {
    match lowest {
        Some(l) => {
            &&& exists|c: int| #[trigger] unsettled_at(s0, s, (l@, c))
            &&& forall|p: (int, int)| #[trigger] unsettled_at(s0, s, p) ==> p.0 <= l@
        },
        None => forall|p: (int, int)| !#[trigger] unsettled_at(s0, s, p),
    }
}

/// The coordinates of the tile with the given index in the row-major list of tiles
pub open spec fn tile_at_index(i: int) -> (int, int) {
    (i / (FIELD_WIDTH as int), i % (FIELD_WIDTH as int))
}

/// Number of capsule elements in the tiles with an index below `n`
pub open spec fn elements_below(s: &StaticField, n: int) -> nat
    decreases n,
{
    if n <= 0 {
        0
    } else {
        elements_below(s, n - 1) + if s.tile(tile_at_index(n - 1)) is CapsuleElement {
            1nat
        } else {
            0nat
        }
    }
}

/// Number of capsule elements in the static field
pub open spec fn element_count(s: &StaticField) -> nat {
    elements_below(s, FIELD_HEIGHT * FIELD_WIDTH)
}

/// Removing an element reduces the number of elements by one.
proof fn lemma_remove_element(s1: &StaticField, s2: &StaticField, t: (int, int), n: int)
    requires
        in_field(t),
        s1.tile(t) is CapsuleElement,
        !(s2.tile(t) is CapsuleElement),
        forall|p: (int, int)| p != t ==> #[trigger] s2.tile(p) == s1.tile(p),
        0 <= n <= FIELD_HEIGHT * FIELD_WIDTH,
    ensures
        elements_below(s2, n) + (if t.0 * FIELD_WIDTH + t.1 < n {
            1int
        } else {
            0int
        }) == elements_below(s1, n),
    decreases n,
{
    if n > 0 {
        lemma_remove_element(s1, s2, t, n - 1);
        let i = n - 1;
        assert(tile_at_index(i) == t <==> i == t.0 * FIELD_WIDTH + t.1) by (nonlinear_arith)
            requires
                0 <= i < 128,
                0 <= t.0 < 16,
                0 <= t.1 < 8,
                tile_at_index(i) == (i / 8, i % 8),
        ;
    }
}

/// Check whether the element at `pos` rests on the bottom or an occupied tile
fn element_rests(s: &StaticField, pos: Position) -> (r: bool)
    ensures
        r == rests(s, pos_view(pos)),
{
    match neighbour(pos, Direction::Below) {
        Some(below) => s.get(below).is_occupied(),
        None => true,
    }
}

/// Check whether the element at `pos` is held in place
fn element_held(s: &StaticField, pos: Position, e: CapsuleElement) -> (r: bool)
    requires
        s.tile(pos_view(pos)) == TileContents::CapsuleElement(e),
    ensures
        r == is_held(s, pos_view(pos)),
{
    if element_rests(s, pos) {
        return true;
    }
    match e.partner() {
        Some(Direction::Left) => match neighbour(pos, Direction::Left) {
            Some(q) => element_rests(s, q),
            None => false,
        },
        Some(Direction::Right) => match neighbour(pos, Direction::Right) {
            Some(q) => element_rests(s, q),
            None => false,
        },
        _ => false,
    }
}

/// Every element next to a freed tile, or next to the tile above, is held or
/// still to be checked
pub open spec fn unsettle_pending(
    s0: &StaticField,
    s: &StaticField,
    elim: Seq<(int, int)>,
    work: Seq<Position>,
) -> bool {
    forall|x: (int, int), c: (int, int)|
        #![trigger unsettle_candidate(x, c), elim.contains(x)]
        #![trigger unsettle_candidate(x, c), unsettled_at(s0, s, x)]
        (elim.contains(x) || unsettled_at(s0, s, x)) && unsettle_candidate(x, c) && in_field(c)
            && s.tile(c) is CapsuleElement ==> is_held(s, c) || holds_position(work, c)
}

/// Unsettling the element at `a`, and its partner at `b` (or `a` again if it
/// has none to take along), keeps the invariants of the unsettling loop.
proof fn lemma_unsettle_step(
    m0: MovingField,
    s0: StaticField,
    elim: Seq<(int, int)>,
    m1: MovingField,
    s1: StaticField,
    lowest1: Option<RowIndex>,
    m: MovingField,
    s: StaticField,
    lowest: Option<RowIndex>,
    w1: Seq<Position>,
    w: Seq<Position>,
    popped: Position,
    partner: Position,
)
    requires
        unsettle_transfer(&m0, &s0, &m1, &s1),
        unsettle_takes_partners(&s0, &s1),
        unsettle_sound(&s0, &s1),
        unsettle_lowest(&s0, &s1, lowest1),
        unsettle_pending(&s0, &s1, elim, w1.push(popped)),
        s1.tile(pos_view(popped)) is CapsuleElement,
        !is_held(&s1, pos_view(popped)),
        pos_view(partner) == pos_view(popped) || (s1.tile(pos_view(partner)) is CapsuleElement && static_partner(&s1, pos_view(popped)) == Some(pos_view(partner))
            && static_partner(&s1, pos_view(partner)) == Some(pos_view(popped))),
        pos_view(partner) == pos_view(popped) ==> !(static_partner(&s1, pos_view(popped)) matches Some(q) && s1.tile(q) is CapsuleElement
            && static_partner(&s1, q) == Some(pos_view(popped))),
        forall|p: (int, int)| #[trigger]
            s.tile(p) == if p == pos_view(popped) || p == pos_view(partner) {
                TileContents::Empty
            } else {
                s1.tile(p)
            },
        forall|p: (int, int)| #[trigger]
            m.tile(p) == if p == pos_view(popped) || p == pos_view(partner) {
                s1.tile(p).spec_element()
            } else {
                m1.tile(p)
            },
        forall|c: (int, int)| unsettle_candidate(pos_view(popped), c) && in_field(c) ==> #[trigger] holds_position(w, c),
        forall|c: (int, int)| unsettle_candidate(pos_view(partner), c) && in_field(c) ==> #[trigger] holds_position(w, c),
        forall|c: (int, int)| #[trigger] holds_position(w1, c) ==> holds_position(w, c),
        lowest == spec_lower_row(spec_lower_row(lowest1, Some(popped.0)), Some(partner.0)),
    ensures
        unsettle_transfer(&m0, &s0, &m, &s),
        unsettle_takes_partners(&s0, &s),
        unsettle_sound(&s0, &s),
        unsettle_lowest(&s0, &s, lowest),
        unsettle_pending(&s0, &s, elim, w),
{
    broadcast use StaticField::lemma_tile_outside;

    let a = pos_view(popped);
    let b = pos_view(partner);
    assert(s1.tile(a) == s0.tile(a));
    assert(s1.tile(b) == s0.tile(b));
    assert(forall|p: (int, int)| #[trigger] unsettled_at(&s0, &s, p) <==> (unsettled_at(&s0, &s1, p)
        || p == a || p == b));
    // transfer
    assert forall|p: (int, int)|
        (unsettled_at(&s0, &s, p) && m.tile(p) == s0.tile(p).spec_element()) || (s.tile(p)
            == s0.tile(p) && m.tile(p) == m0.tile(p)) by {
        assert(s1.tile(p) == s.tile(p) || p == a || p == b);
    }
    // partners taken along
    assert forall|p: (int, int)| #[trigger] unsettled_at(&s0, &s, p) && static_partner(&s0, p) is Some implies {
        let q = static_partner(&s0, p)->0;
        s0.tile(q).spec_element() is Some && static_partner(&s0, q) == Some(p) ==> unsettled_at(
            &s0,
            &s,
            q,
        )
    } by {
        let q = static_partner(&s0, p)->0;
        if s0.tile(q).spec_element() is Some && static_partner(&s0, q) == Some(p) {
            if unsettled_at(&s0, &s1, p) {
                assert(unsettled_at(&s0, &s1, q));
            } else if p == a && b == a {
                assert(static_partner(&s1, a) == static_partner(&s0, a));
                if !unsettled_at(&s0, &s1, q) {
                    assert(s1.tile(q) == s0.tile(q));
                }
            } else if p == b && b != a {
                assert(static_partner(&s1, b) == static_partner(&s0, b));
            }
        }
    }
    // soundness
    let e = s1.tile(a).spec_element()->0;
    assert forall|p: (int, int)| #[trigger] unsettled_at(&s0, &s, p) implies in_field(p) && p.0
        < FIELD_HEIGHT - 1 && !s.tile((p.0 + 1, p.1)).spec_is_occupied() by {
        if unsettled_at(&s0, &s1, p) {
        } else if p == a {
        } else {
            let d = e.spec_partner()->0;
            assert(b == spec_neighbour(a, d));
            if d == Direction::Below {
                assert(rests(&s1, a));
            }
        }
    }
    // lowest row
    match lowest {
        Some(l) => {
            assert(forall|p: (int, int)| #[trigger] unsettled_at(&s0, &s, p) ==> p.0 <= l@);
            if l@ == a.0 {
                assert(unsettled_at(&s0, &s, (l@, a.1)));
            } else if l@ == b.0 {
                assert(unsettled_at(&s0, &s, (l@, b.1)));
            } else {
                let c = choose|c: int| #[trigger] unsettled_at(&s0, &s1, (lowest1->0@, c));
                assert(unsettled_at(&s0, &s, (l@, c)));
            }
        },
        None => {},
    }
    // pending checks
    assert forall|x: (int, int), c: (int, int)|
        (elim.contains(x) || unsettled_at(&s0, &s, x)) && unsettle_candidate(x, c) && in_field(c)
            && s.tile(c) is CapsuleElement implies is_held(&s, c) || holds_position(w, c) by {
        if x == a || x == b {
        } else {
            assert(unsettled_at(&s0, &s, x) ==> unsettled_at(&s0, &s1, x));
            assert(s.tile(c) == s1.tile(c));
            assert(is_held(&s1, c) || holds_position(w1.push(popped), c));
            if holds_position(w1.push(popped), c) && !holds_position(w1, c) {
                let i = choose|i: int|
                    0 <= i < w1.push(popped).len() && pos_view(
                        #[trigger] w1.push(popped)[i],
                    ) == c;
                if i < w1.len() {
                    assert(w1.push(popped)[i] == w1[i]);
                }
            }
            if is_held(&s1, c) && !holds_position(w, c) {
                let below = spec_neighbour(c, Direction::Below);
                let left = spec_neighbour(c, Direction::Left);
                let right = spec_neighbour(c, Direction::Right);
                if below == a || below == b || spec_neighbour(left, Direction::Below) == a
                    || spec_neighbour(left, Direction::Below) == b || spec_neighbour(
                    right,
                    Direction::Below,
                ) == a || spec_neighbour(right, Direction::Below) == b {
                    if below == a || spec_neighbour(left, Direction::Below) == a || spec_neighbour(
                        right,
                        Direction::Below,
                    ) == a {
                        assert(unsettle_candidate(a, c));
                    } else {
                        assert(unsettle_candidate(b, c));
                    }
                } else {
                    lemma_held_unchanged(&s1, &s, c, a, b);
                }
            }
        }
    }
}

/// Checking an element which is held, or no element at all, keeps the
/// invariants of the unsettling loop.
proof fn lemma_unsettle_skip(
    s0: StaticField,
    s1: StaticField,
    elim: Seq<(int, int)>,
    w1: Seq<Position>,
    popped: Position,
)
    requires
        unsettle_pending(&s0, &s1, elim, w1.push(popped)),
        s1.tile(pos_view(popped)) is CapsuleElement ==> is_held(&s1, pos_view(popped)),
    ensures
        unsettle_pending(&s0, &s1, elim, w1),
{
    assert forall|x: (int, int), c: (int, int)|
        (elim.contains(x) || unsettled_at(&s0, &s1, x)) && unsettle_candidate(x, c) && in_field(c)
            && s1.tile(c) is CapsuleElement implies is_held(&s1, c) || holds_position(w1, c) by {
        if holds_position(w1.push(popped), c) && !is_held(&s1, c) {
            let i = choose|i: int|
                0 <= i < w1.push(popped).len() && pos_view(#[trigger] w1.push(popped)[i]) == c;
            if i < w1.len() {
                assert(w1.push(popped)[i] == w1[i]);
            }
        }
    }
}

/// Neighbours refer back to each other only through opposite directions.
proof fn lemma_neighbour_back(p: (int, int), d: Direction, e: Direction)
    ensures
        spec_neighbour(spec_neighbour(p, d), e) == p <==> e == d.opposite(),
{
}

/// An element whose surroundings did not change is held as it was.
proof fn lemma_held_unchanged(s1: &StaticField, s2: &StaticField, c: (int, int), a: (int, int), b: (int, int))
    requires
        forall|p: (int, int)| p != a && p != b ==> #[trigger] s2.tile(p) == s1.tile(p),
        c != a && c != b,
        spec_neighbour(c, Direction::Below) != a && spec_neighbour(c, Direction::Below) != b,
        spec_neighbour(spec_neighbour(c, Direction::Left), Direction::Below) != a,
        spec_neighbour(spec_neighbour(c, Direction::Left), Direction::Below) != b,
        spec_neighbour(spec_neighbour(c, Direction::Right), Direction::Below) != a,
        spec_neighbour(spec_neighbour(c, Direction::Right), Direction::Below) != b,
    ensures
        is_held(s2, c) == is_held(s1, c),
{
    assert(s2.tile((c.0 + 1, c.1)) == s1.tile((c.0 + 1, c.1)));
    assert(s2.tile((c.0 + 1, c.1 - 1)) == s1.tile((c.0 + 1, c.1 - 1)));
    assert(s2.tile((c.0 + 1, c.1 + 1)) == s1.tile((c.0 + 1, c.1 + 1)));
    assert(s2.tile(c) == s1.tile(c));
}

/// Unsettle elements no longer held in place after an elimination
///
/// Starting from the tiles next to and above the eliminated ones, every
/// capsule element of the static field which is not held in place any more is
/// moved to the field of moving elements, together with any element bound to
/// it which refers back. The tiles next to and above a moved element are then
/// checked in turn. The function returns the lowest row holding a moved
/// element, if any.
pub fn unsettle_elements(
    moving_field: &mut MovingField,
    static_field: &mut StaticField,
    eliminated: &Eliminated,
) -> (r: Option<RowIndex>)
    ensures
        unsettle_transfer(
            &*old(moving_field),
            &*old(static_field),
            &*final(moving_field),
            &*final(static_field),
        ),
        unsettle_takes_partners(&*old(static_field), &*final(static_field)),
        unsettle_sound(&*old(static_field), &*final(static_field)),
        unsettle_complete(&*old(static_field), &*final(static_field), rows_positions(eliminated@)),
        unsettle_lowest(&*old(static_field), &*final(static_field), r),
        forall|i: MovingRowIndex| #[trigger]
            final(moving_field).spec_row_of(i) == old(moving_field).spec_row_of(i),
{
    let ghost m0 = *moving_field;
    let ghost s0 = *static_field;
    let ghost elim = rows_positions(eliminated@);
    let positions = eliminated.positions();
    let mut work: Vec<Position> = Vec::new();
    let mut i: usize = 0;
    while i < positions.len()
        invariant
            i <= positions.len(),
            positions@.map_values(|p: Position| pos_view(p)) == elim,
            forall|x: (int, int), c: (int, int)|
                #![trigger unsettle_candidate(x, c), elim.contains(x)]
                elim.contains(x) && positions@.map_values(|p: Position| pos_view(p)).take(
                    i as int,
                ).contains(x) && unsettle_candidate(x, c) && in_field(c) ==> holds_position(work@, c),
        decreases positions.len() - i,
    {
        let ghost before = work@;
        push_candidates(&mut work, positions[i]);
        proof {
            let pv = positions@.map_values(|p: Position| pos_view(p));
            assert forall|x: (int, int), c: (int, int)|
                elim.contains(x) && pv.take(i + 1).contains(x) && unsettle_candidate(x, c)
                    && in_field(c) implies holds_position(work@, c) by {
                if x == pos_view(positions[i as int]) {
                } else {
                    let j = choose|j: int| 0 <= j < i + 1 && #[trigger] pv.take(i + 1)[j] == x;
                    assert(pv.take(i as int)[j] == x);
                    assert(holds_position(before, c));
                }
            }
        }
        i = i + 1;
    }
    proof {
        let pv = positions@.map_values(|p: Position| pos_view(p));
        assert(pv.take(positions.len() as int) =~= pv);
    }
    let mut lowest: Option<RowIndex> = None;
    proof {
        assert forall|x: (int, int), c: (int, int)|
            (elim.contains(x) || unsettled_at(&s0, &*static_field, x)) && unsettle_candidate(x, c)
                && in_field(c) && static_field.tile(c) is CapsuleElement implies is_held(
            &*static_field,
            c,
        ) || holds_position(work@, c) by {
            assert(!unsettled_at(&s0, &*static_field, x));
        }
    }
    while work.len() > 0
        invariant
            unsettle_transfer(&m0, &s0, &*moving_field, &*static_field),
            unsettle_takes_partners(&s0, &*static_field),
            unsettle_sound(&s0, &*static_field),
            unsettle_lowest(&s0, &*static_field, lowest),
            unsettle_pending(&s0, &*static_field, elim, work@),
            forall|i: MovingRowIndex| #[trigger] moving_field.spec_row_of(i) == m0.spec_row_of(i),
        decreases element_count(&*static_field), work.len(),
    {
        let ghost s1 = *static_field;
        let ghost m1 = *moving_field;
        let ghost lowest1 = lowest;
        let ghost w0 = work@;
        let pos = work.pop().unwrap();
        let ghost w1 = work@;
        assert(w0 =~= w1.push(pos));
        let ghost a = pos_view(pos);
        let tile = static_field.get(pos);
        let moved = match tile {
            TileContents::CapsuleElement(e) => !element_held(static_field, pos, e),
            _ => false,
        };
        if !moved {
            proof {
                lemma_unsettle_skip(s0, s1, elim, w1, pos);
            }
        } else {
            let e = match tile {
                TileContents::CapsuleElement(e) => e,
                _ => CapsuleElement::new_single(crate::util::Colour::Red),
            };
            static_field.take(pos);
            moving_field.set(pos, Some(e));
            proof {
                lemma_remove_element(&s1, &*static_field, a, FIELD_HEIGHT * FIELD_WIDTH);
            }
            push_candidates(&mut work, pos);
            let ghost w_first = work@;
            lowest = lower_row(lowest, Some(pos.0));
            let ghost s2 = *static_field;
            let mut partner_pos = pos;
            match e.partner() {
                Some(d) => match neighbour(pos, d) {
                    Some(q) => match static_field.get(q) {
                        TileContents::CapsuleElement(f) => {
                            proof {
                                lemma_neighbour_back(a, d, d);
                            }
                            if f.partner() == Some(d.rotated_cw().rotated_cw()) {
                                static_field.take(q);
                                moving_field.set(q, Some(f));
                                proof {
                                    lemma_remove_element(
                                        &s2,
                                        &*static_field,
                                        pos_view(q),
                                        FIELD_HEIGHT * FIELD_WIDTH,
                                    );
                                    lemma_neighbour_back(a, d, d.opposite());
                                }
                                push_candidates(&mut work, q);
                                lowest = lower_row(lowest, Some(q.0));
                                partner_pos = q;
                            } else {
                                proof {
                                    match f.spec_partner() {
                                        Some(g) => lemma_neighbour_back(a, d, g),
                                        None => {},
                                    }
                                }
                            }
                        },
                        _ => {},
                    },
                    None => {
                        proof {
                            broadcast use StaticField::lemma_tile_outside;

                        }
                    },
                },
                None => {},
            }
            proof {
                assert forall|c: (int, int)|
                    unsettle_candidate(a, c) && in_field(c) implies #[trigger] holds_position(work@, c) by {
                    assert(holds_position(w_first, c));
                }
                assert forall|c: (int, int)| #[trigger] holds_position(w1, c) implies holds_position(work@, c) by {
                    assert(holds_position(w_first, c));
                }
                lemma_unsettle_step(
                    m0,
                    s0,
                    elim,
                    m1,
                    s1,
                    lowest1,
                    *moving_field,
                    *static_field,
                    lowest,
                    w1,
                    work@,
                    pos,
                    partner_pos,
                );
            }
        }
    }
    proof {
        assert forall|x: (int, int), c: (int, int)|
            (elim.contains(x) || unsettled_at(&s0, &*static_field, x)) && unsettle_candidate(x, c)
                && in_field(c) && static_field.tile(c) is CapsuleElement implies is_held(
            &*static_field,
            c,
        ) by {
            assert(!holds_position(work@, c));
        }
    }
    lowest
}

/// Unsettling keeps capsule elements bound consistently in both fields.
///
/// If the elements of both fields refer to partners which refer back and no
/// tile is occupied in both fields, this still holds after moving elements
/// from the static to the moving field, each together with any partner which
/// refers back to it.
pub proof fn lemma_unsettle_keeps_partnership(
    m0: MovingField,
    s0: StaticField,
    m: MovingField,
    s: StaticField,
)
    requires
        moving_consistent(&m0),
        static_consistent(&s0),
        no_overlap(&s0, &m0),
        unsettle_transfer(&m0, &s0, &m, &s),
        unsettle_takes_partners(&s0, &s),
    ensures
        moving_consistent(&m),
        static_consistent(&s),
        no_overlap(&s, &m),
{
    broadcast use StaticField::lemma_tile_outside;
    broadcast use MovingField::lemma_tile_outside;

    reveal(moving_consistent);
    reveal(static_consistent);
    assert forall|p: (int, int)| in_field(p) && #[trigger] moving_partner(&m, p) is Some implies {
        let d = m.tile(p)->0.spec_partner()->0;
        let q = spec_neighbour(p, d);
        &&& in_field(q)
        &&& m.tile(q) is Some
        &&& m.tile(q)->0.spec_partner() == Some(d.opposite())
    } by {
        assert(m.tile(p) == m0.tile(p) || unsettled_at(&s0, &s, p));
        if unsettled_at(&s0, &s, p) {
            assert(m.tile(p) == s0.tile(p).spec_element());
            assert(static_partner(&s0, p) is Some);
            lemma_static_consistent_at(&s0, p);
            let d = s0.tile(p).spec_element()->0.spec_partner()->0;
            let q = spec_neighbour(p, d);
            lemma_neighbour_back(p, d, d.opposite());
            assert(static_partner(&s0, q) == Some(p));
            assert(unsettled_at(&s0, &s, q));
            assert(m.tile(q) == s0.tile(q).spec_element() || m.tile(q) == m0.tile(q));
            if m.tile(q) != s0.tile(q).spec_element() {
                assert(s.tile(q) == s0.tile(q));
            }
        } else {
            assert(moving_partner(&m0, p) is Some);
            lemma_moving_consistent_at(&m0, p);
            let d = m0.tile(p)->0.spec_partner()->0;
            let q = spec_neighbour(p, d);
            assert(m0.tile(q) is Some);
            if unsettled_at(&s0, &s, q) {
                assert(s0.tile(q).spec_is_occupied());
            }
            assert(m.tile(q) == m0.tile(q));
        }
    }
    assert forall|p: (int, int)| in_field(p) && #[trigger] static_partner(&s, p) is Some implies {
        let d = s.tile(p).spec_element()->0.spec_partner()->0;
        let q = spec_neighbour(p, d);
        &&& in_field(q)
        &&& s.tile(q).spec_element() is Some
        &&& s.tile(q).spec_element()->0.spec_partner() == Some(d.opposite())
    } by {
        assert(s.tile(p) == s0.tile(p) || unsettled_at(&s0, &s, p));
        assert(!unsettled_at(&s0, &s, p));
        assert(static_partner(&s0, p) is Some);
        lemma_static_consistent_at(&s0, p);
        let d = s0.tile(p).spec_element()->0.spec_partner()->0;
        let q = spec_neighbour(p, d);
        lemma_neighbour_back(p, d, d.opposite());
        if unsettled_at(&s0, &s, q) {
            assert(static_partner(&s0, q) == Some(p));
            assert(static_partner(&s0, p) == Some(q));
            assert(unsettled_at(&s0, &s, p));
        }
        assert(s.tile(q) == s0.tile(q));
    }
    assert forall|p: (int, int)| #[trigger] m.tile(p) is Some implies !s.tile(p).spec_is_occupied() by {
        assert(m.tile(p) == m0.tile(p) || unsettled_at(&s0, &s, p));
        if !unsettled_at(&s0, &s, p) {
            assert(s.tile(p) == s0.tile(p));
        }
    }
}

/// Unsettling leaves the set of occupied tiles unchanged.
///
/// A tile holds an element in either field after unsettling exactly if it
/// did so before.
pub proof fn lemma_unsettle_keeps_occupation(
    m0: MovingField,
    s0: StaticField,
    m: MovingField,
    s: StaticField,
)
    requires
        unsettle_transfer(&m0, &s0, &m, &s),
    ensures
        forall|p: (int, int)|
            #![trigger s.tile(p)]
            #![trigger m.tile(p)]
            (s.tile(p).spec_is_occupied() || m.tile(p) is Some) <==> (s0.tile(p).spec_is_occupied()
                || m0.tile(p) is Some),
{
    assert forall|p: (int, int)|
        (s.tile(p).spec_is_occupied() || m.tile(p) is Some) <==> (s0.tile(p).spec_is_occupied()
            || m0.tile(p) is Some) by {
        assert(m.tile(p) == m0.tile(p) || unsettled_at(&s0, &s, p));
        if unsettled_at(&s0, &s, p) && m.tile(p) != m0.tile(p) {
            assert(m.tile(p) == s0.tile(p).spec_element());
        }
    }
}

/// A full tick keeps both fields consistent.
///
/// Starting from fields whose elements refer to partners which refer back and
/// which share no occupied tile, settling all rows, eliminating any set of
/// tiles, unsettling the elements no longer held and moving the remaining
/// elements down one row leaves the top row of the moving field free, no tile
/// occupied in both fields, and the elements of both fields bound
/// consistently.
pub proof fn lemma_full_tick_keeps_partnership(
    m0: MovingField,
    s0: StaticField,
    settled: Seq<(int, int)>,
    m1: MovingField,
    s1: StaticField,
    e: Set<(int, int)>,
    s2: StaticField,
    m3: MovingField,
    s3: StaticField,
    m4: MovingField,
)
    requires
        moving_consistent(&m0),
        static_consistent(&s0),
        no_overlap(&s0, &m0),
        forall|p: (int, int)| #[trigger] settled.contains(p) ==> in_field(p) && m0.tile(p) is Some,
        settle_closed(&m0, &s0, FIELD_HEIGHT - 1, settled.to_set()),
        settle_transfer(m0, s0, settled, m1, s1),
        forall|q: (int, int)| #[trigger] s2.tile(q) == eliminated_tile(&s1, e, q),
        unsettle_transfer(&m1, &s2, &m3, &s3),
        unsettle_takes_partners(&s2, &s3),
        unsettle_sound(&s2, &s3),
        shifted_down(&m3, &m4),
    ensures
        !row_has_element(&m4, 0),
        no_overlap(&s3, &m4),
        moving_consistent(&m4),
        static_consistent(&s3),
{
    broadcast use MovingField::lemma_tile_outside;

    lemma_settle_keeps_partnership(m0, s0, FIELD_HEIGHT - 1, settled, m1, s1);
    lemma_elimination_keeps_partnership(s1, e, s2);
    assert forall|p: (int, int)| #[trigger] m1.tile(p) is Some implies !s2.tile(p).spec_is_occupied() by {
        assert(s2.tile(p) == eliminated_tile(&s1, e, p));
    }
    lemma_unsettle_keeps_partnership(m1, s2, m3, s3);
    assert forall|c: int| 0 <= c < FIELD_WIDTH implies #[trigger] m3.tile((FIELD_HEIGHT - 1, c))
        is None by {
        let p = (FIELD_HEIGHT - 1, c);
        if m0.tile(p) is Some {
            assert(is_supported(&s0, settled.to_set(), p));
            assert(settled.to_set().contains(p));
        }
        assert(m1.tile(p) is None);
        assert(m3.tile(p) == m1.tile(p) || unsettled_at(&s2, &s3, p));
    }
    lemma_tick_keeps_partnership(m3, m4);
    assert forall|p: (int, int)| #[trigger] m4.tile(p) is Some implies !s3.tile(p).spec_is_occupied() by {
        assert(in_field(p));
        assert(p.0 != 0);
        let p1 = (p.0 - 1, p.1);
        assert(m4.tile(p) == m3.tile(p1));
        if !unsettled_at(&s2, &s3, p1) {
            assert(m3.tile(p1) == m1.tile(p1));
            assert(!settled.contains(p1));
            assert(m0.tile(p1) is Some);
            assert(!settled.to_set().contains(p1));
            assert(!is_supported(&s0, settled.to_set(), p1));
            assert(!settled.contains(p));
            assert(s1.tile(p) == s0.tile(p));
            assert(s2.tile(p) == eliminated_tile(&s1, e, p));
            assert(s3.tile(p) == s2.tile(p) || unsettled_at(&s2, &s3, p));
        }
    }
}

/// Unsettling into an empty moving field and a tick keep both fields consistent.
///
/// Starting from a static field whose elements refer to partners which refer
/// back, eliminating any set of tiles, unsettling the elements no longer held
/// into an empty moving field and moving them down one row leaves the top row
/// of the moving field free, no tile occupied in both fields, and the elements
/// of both fields bound consistently.
pub proof fn lemma_unsettle_then_tick(
    s1: StaticField,
    e: Set<(int, int)>,
    s2: StaticField,
    m2: MovingField,
    m3: MovingField,
    s3: StaticField,
    m4: MovingField,
)
    requires
        static_consistent(&s1),
        forall|q: (int, int)| #[trigger] s2.tile(q) == eliminated_tile(&s1, e, q),
        forall|p: (int, int)| #[trigger] m2.tile(p) is None,
        unsettle_transfer(&m2, &s2, &m3, &s3),
        unsettle_takes_partners(&s2, &s3),
        unsettle_sound(&s2, &s3),
        shifted_down(&m3, &m4),
    ensures
        !row_has_element(&m4, 0),
        no_overlap(&s3, &m4),
        moving_consistent(&m4),
        static_consistent(&s3),
{
    broadcast use MovingField::lemma_tile_outside;

    lemma_elimination_keeps_partnership(s1, e, s2);
    assert(moving_consistent(&m2)) by {
        reveal(moving_consistent);
    }
    lemma_unsettle_keeps_partnership(m2, s2, m3, s3);
    assert forall|c: int| 0 <= c < FIELD_WIDTH implies #[trigger] m3.tile((FIELD_HEIGHT - 1, c))
        is None by {
        let p = (FIELD_HEIGHT - 1, c);
        assert(m3.tile(p) == m2.tile(p) || unsettled_at(&s2, &s3, p));
    }
    lemma_tick_keeps_partnership(m3, m4);
    assert forall|p: (int, int)| #[trigger] m4.tile(p) is Some implies !s3.tile(p).spec_is_occupied() by {
        assert(in_field(p));
        assert(p.0 != 0);
        let p1 = (p.0 - 1, p.1);
        assert(m4.tile(p) == m3.tile(p1));
        assert(m3.tile(p1) == m2.tile(p1) || unsettled_at(&s2, &s3, p1));
    }
}

/// Append the position next to `pos` in the given direction, if it lies within the field
fn push_neighbour(work: &mut Vec<Position>, pos: Position, dir: Direction) -> (r: Option<Position>)
    ensures
        r is Some <==> in_field(spec_neighbour(pos_view(pos), dir)),
        r matches Some(q) ==> pos_view(q) == spec_neighbour(pos_view(pos), dir) && final(work)@
            == old(work)@.push(q),
        r is None ==> final(work)@ == old(work)@,
{
    let r = neighbour(pos, dir);
    if let Some(q) = r {
        work.push(q);
    }
    r
}

/// Whether the list holds a position with the given coordinates
pub open spec fn holds_position(work: Seq<Position>, c: (int, int)) -> bool {
    exists|i: int| 0 <= i < work.len() && pos_view(#[trigger] work[i]) == c
}

/// Appending keeps the positions held.
proof fn lemma_push_holds(work: Seq<Position>, q: Position, c: (int, int))
    ensures
        holds_position(work, c) ==> holds_position(work.push(q), c),
        pos_view(q) == c ==> holds_position(work.push(q), c),
{
    if holds_position(work, c) {
        let i = choose|i: int| 0 <= i < work.len() && pos_view(#[trigger] work[i]) == c;
        assert(work.push(q)[i] == work[i]);
    }
    if pos_view(q) == c {
        assert(work.push(q)[work.len() as int] == q);
    }
}

/// Append the tiles whose elements may lose their hold when `x` is freed
fn push_candidates(work: &mut Vec<Position>, x: Position)
    ensures
        final(work)@.take(old(work)@.len() as int) == old(work)@,
        final(work)@.len() >= old(work)@.len(),
        forall|c: (int, int)|
            unsettle_candidate(pos_view(x), c) && in_field(c) ==> #[trigger] holds_position(
                final(work)@,
                c,
            ),
        forall|c: (int, int)| #[trigger]
            holds_position(old(work)@, c) ==> holds_position(final(work)@, c),
{
    let ghost start = work@;
    let ghost xv = pos_view(x);
    let ghost above = spec_neighbour(xv, Direction::Above);
    let ghost targets = seq![
        above,
        spec_neighbour(above, Direction::Left),
        spec_neighbour(above, Direction::Right),
        spec_neighbour(xv, Direction::Left),
        spec_neighbour(xv, Direction::Right),
    ];
    let ghost mut done: int = 0;
    let a = push_neighbour(work, x, Direction::Above);
    proof {
        assert forall|c: (int, int)| #[trigger] holds_position(start, c) implies holds_position(work@, c) by {
            if let Some(q) = a {
                lemma_push_holds(start, q, c);
            }
        }
        if let Some(q) = a {
            lemma_push_holds(start, q, above);
        }
    }
    if let Some(av) = a {
        let ghost w1 = work@;
        let l = push_neighbour(work, av, Direction::Left);
        proof {
            assert forall|c: (int, int)| #[trigger] holds_position(w1, c) implies holds_position(work@, c) by {
                if let Some(q) = l {
                    lemma_push_holds(w1, q, c);
                }
            }
            if let Some(q) = l {
                lemma_push_holds(w1, q, targets[1]);
            }
        }
        let ghost w2 = work@;
        let r = push_neighbour(work, av, Direction::Right);
        proof {
            assert forall|c: (int, int)| #[trigger] holds_position(w2, c) implies holds_position(work@, c) by {
                if let Some(q) = r {
                    lemma_push_holds(w2, q, c);
                }
            }
            if let Some(q) = r {
                lemma_push_holds(w2, q, targets[2]);
            }
        }
    }
    let ghost w3 = work@;
    let l = push_neighbour(work, x, Direction::Left);
    proof {
        assert forall|c: (int, int)| #[trigger] holds_position(w3, c) implies holds_position(work@, c) by {
            if let Some(q) = l {
                lemma_push_holds(w3, q, c);
            }
        }
        if let Some(q) = l {
            lemma_push_holds(w3, q, targets[3]);
        }
    }
    let ghost w4 = work@;
    let r = push_neighbour(work, x, Direction::Right);
    proof {
        assert forall|c: (int, int)| #[trigger] holds_position(w4, c) implies holds_position(work@, c) by {
            if let Some(q) = r {
                lemma_push_holds(w4, q, c);
            }
        }
        if let Some(q) = r {
            lemma_push_holds(w4, q, targets[4]);
        }
        assert(work@.take(start.len() as int) =~= start);
        assert forall|c: (int, int)|
            unsettle_candidate(xv, c) && in_field(c) implies #[trigger] holds_position(work@, c) by {
            if c == spec_neighbour(above, Direction::Left) || c == spec_neighbour(above, Direction::Right) {
                assert(in_field(above));
            }
        }
    }
}

} // verus!
