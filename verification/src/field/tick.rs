//! Pre-tick functions and transfer types

use vstd::prelude::*;

use crate::util::{
    in_field, neighbour, pos_view, position, spec_neighbour, Colour, Direction, Position, RowIndex,
    FIELD_HEIGHT, FIELD_WIDTH,
};

use super::items::{row_of_four, row_of_four_result, CapsuleElement, RowOfFour};
use super::moving_field::{shifted_down, MovingField, MovingRowIndex};
use super::static_field::{StaticField, TileContents};

verus! {

broadcast use crate::util::group_index_bounds;

/// Coordinates of the tile the partner of `e`, located at `p`, would occupy
pub open spec fn partner_position(e: CapsuleElement, p: (int, int)) -> Option<(int, int)> {
    match e.spec_partner() {
        Some(d) => Some(spec_neighbour(p, d)),
        None => None,
    }
}

/// Coordinates of the partner of the element at `p` in the moving field, if any
pub open spec fn moving_partner(m: &MovingField, p: (int, int)) -> Option<(int, int)> {
    match m.tile(p) {
        Some(e) => partner_position(e, p),
        None => None,
    }
}

/// Coordinates of the partner of the element at `p` in the static field, if any
pub open spec fn static_partner(s: &StaticField, p: (int, int)) -> Option<(int, int)> {
    match s.tile(p).spec_element() {
        Some(e) => partner_position(e, p),
        None => None,
    }
}

/// Capsule elements in the moving field refer to partners which refer back
#[verifier::opaque]
pub open spec fn moving_consistent(m: &MovingField) -> bool {
    forall|p: (int, int)|
        in_field(p) && #[trigger] moving_partner(m, p) is Some ==> {
            let d = m.tile(p)->0.spec_partner()->0;
            let q = spec_neighbour(p, d);
            &&& in_field(q)
            &&& m.tile(q) is Some
            &&& m.tile(q)->0.spec_partner() == Some(d.opposite())
        }
}

/// Capsule elements in the static field refer to partners which refer back
#[verifier::opaque]
pub open spec fn static_consistent(s: &StaticField) -> bool {
    forall|p: (int, int)|
        in_field(p) && #[trigger] static_partner(s, p) is Some ==> {
            let d = s.tile(p).spec_element()->0.spec_partner()->0;
            let q = spec_neighbour(p, d);
            &&& in_field(q)
            &&& s.tile(q).spec_element() is Some
            &&& s.tile(q).spec_element()->0.spec_partner() == Some(d.opposite())
        }
}

/// No tile holds an element in the moving field while being occupied in the static field
pub open spec fn no_overlap(s: &StaticField, m: &MovingField) -> bool {
    forall|p: (int, int)| #[trigger] m.tile(p) is Some ==> !s.tile(p).spec_is_occupied()
}

/// The elements at `settled` left the moving field and now occupy the static field
pub open spec fn settle_transfer(
    m0: MovingField,
    s0: StaticField,
    settled: Seq<(int, int)>,
    m1: MovingField,
    s1: StaticField,
) -> bool {
    &&& forall|p: (int, int)| #[trigger]
        m1.tile(p) == if settled.contains(p) {
            None
        } else {
            m0.tile(p)
        }
    &&& forall|p: (int, int)| #[trigger]
        s1.tile(p) == if settled.contains(p) {
            TileContents::CapsuleElement(m0.tile(p)->0)
        } else {
            s0.tile(p)
        }
}

/// The element at `p` rests on the bottom of the field, on an occupied tile or
/// on an element in `settled`
pub open spec fn is_supported(s: &StaticField, settled: Set<(int, int)>, p: (int, int)) -> bool {
    ||| p.0 == FIELD_HEIGHT - 1
    ||| s.tile((p.0 + 1, p.1)).spec_is_occupied()
    ||| settled.contains((p.0 + 1, p.1))
}

/// `settled` is closed under the settling rules for the rows from the top to `lowest`
///
/// Any element in these rows resting on the bottom, an occupied tile or a
/// settled element settles, and so does the partner of any settled element.
pub open spec fn settle_closed(
    m: &MovingField,
    s: &StaticField,
    lowest: int,
    settled: Set<(int, int)>,
) -> bool {
    &&& forall|p: (int, int)|
        in_field(p) && p.0 <= lowest && #[trigger] m.tile(p) is Some && is_supported(s, settled, p)
            ==> settled.contains(p)
    &&& forall|p: (int, int)|
        #[trigger] settled.contains(p) && m.tile(p) is Some && partner_position(m.tile(p)->0, p)
            is Some ==> {
            let q = partner_position(m.tile(p)->0, p)->0;
            in_field(q) && m.tile(q) is Some ==> settled.contains(q)
        }
}

/// In a consistent moving field, the partner of an element refers back to it.
pub proof fn lemma_moving_consistent_at(m: &MovingField, p: (int, int))
    requires
        moving_consistent(m),
        in_field(p),
        m.tile(p) is Some,
        m.tile(p)->0.spec_partner() is Some,
    ensures
        ({
            let d = m.tile(p)->0.spec_partner()->0;
            let q = spec_neighbour(p, d);
            &&& in_field(q)
            &&& m.tile(q) is Some
            &&& m.tile(q)->0.spec_partner() == Some(d.opposite())
            &&& spec_neighbour(q, d.opposite()) == p
        }),
{
    reveal(moving_consistent);
    assert(moving_partner(m, p) is Some);
}

/// In a consistent static field, the partner of an element refers back to it.
pub proof fn lemma_static_consistent_at(s: &StaticField, p: (int, int))
    requires
        static_consistent(s),
        in_field(p),
        s.tile(p).spec_element() is Some,
        s.tile(p).spec_element()->0.spec_partner() is Some,
    ensures
        ({
            let d = s.tile(p).spec_element()->0.spec_partner()->0;
            let q = spec_neighbour(p, d);
            &&& in_field(q)
            &&& s.tile(q).spec_element() is Some
            &&& s.tile(q).spec_element()->0.spec_partner() == Some(d.opposite())
            &&& spec_neighbour(q, d.opposite()) == p
        }),
{
    reveal(static_consistent);
    assert(static_partner(s, p) is Some);
}

/// Whether the given row of the moving field holds any element
pub open spec fn row_has_element(m: &MovingField, row: int) -> bool {
    exists|c: int| 0 <= c < FIELD_WIDTH && #[trigger] m.tile((row, c)) is Some
}

/// Settled elements' positions
pub struct Settled {
    elements: Vec<Position>,
}

impl View for Settled {
    type V = Seq<(int, int)>;

    closed spec fn view(&self) -> Seq<(int, int)> {
        self.elements@.map_values(|p: Position| pos_view(p))
    }
}

impl Settled {
    /// Create a list of settled elements from their positions
    pub fn new(elements: Vec<Position>) -> (r: Self)
        ensures
            r@ == elements@.map_values(|p: Position| pos_view(p)),
    {
        Settled { elements }
    }

    /// The positions of the settled elements
    pub fn positions(&self) -> (r: &Vec<Position>)
        ensures
            r@.map_values(|p: Position| pos_view(p)) == self@,
    {
        &self.elements
    }

    /// Number of settled elements
    pub fn len(&self) -> (r: usize)
        ensures
            r == self@.len(),
    {
        self.elements.len()
    }

    /// Whether no element settled
    pub fn is_empty(&self) -> (r: bool)
        ensures
            r == (self@.len() == 0),
    {
        self.elements.len() == 0
    }
}

/// Settling tiles visited so far: tiles of both fields reflect the settled elements
#[verifier::opaque]
pub open spec fn settle_tiles(
    m0: MovingField,
    s0: StaticField,
    m: MovingField,
    s: StaticField,
    settled: Seq<(int, int)>,
) -> bool {
    &&& forall|p: (int, int)| #[trigger]
        settled.contains(p) ==> in_field(p) && m0.tile(p) is Some
    &&& forall|p: (int, int)| #[trigger]
        m.tile(p) == if settled.contains(p) {
            None
        } else {
            m0.tile(p)
        }
    &&& forall|p: (int, int)| #[trigger]
        s.tile(p) == if settled.contains(p) {
            TileContents::CapsuleElement(m0.tile(p)->0)
        } else {
            s0.tile(p)
        }
    &&& forall|i: MovingRowIndex| #[trigger] m.spec_row_of(i) == m0.spec_row_of(i)
}

/// The settled elements are contained in any set closed under the settling rules
#[verifier::opaque]
pub open spec fn settle_minimal(
    m0: MovingField,
    s0: StaticField,
    low: int,
    settled: Seq<(int, int)>,
) -> bool {
    forall|t: Set<(int, int)>| #[trigger]
        settle_closed(&m0, &s0, low, t) ==> settled.to_set().subset_of(t)
}

/// Order in which tiles are visited when settling, starting at row `low`
pub open spec fn settle_order(low: int, p: (int, int)) -> int {
    (low - p.0) * FIELD_WIDTH + p.1
}

/// All supported elements on tiles visited before step `k` are settled
#[verifier::opaque]
pub open spec fn settle_supported_upto(
    m0: MovingField,
    s0: StaticField,
    low: int,
    k: int,
    settled: Seq<(int, int)>,
) -> bool {
    forall|p: (int, int)|
        in_field(p) && p.0 <= low && settle_order(low, p) < k && #[trigger] m0.tile(p) is Some
            && is_supported(&s0, settled.to_set(), p) ==> settled.contains(p)
}

/// For consistent fields, the partners of settled elements are settled
#[verifier::opaque]
pub open spec fn settle_partners(m0: MovingField, settled: Seq<(int, int)>) -> bool {
    moving_consistent(&m0) ==> forall|p: (int, int)|
        #[trigger] settled.contains(p) && m0.tile(p) is Some && partner_position(m0.tile(p)->0, p)
            is Some ==> {
            let q = partner_position(m0.tile(p)->0, p)->0;
            in_field(q) && m0.tile(q) is Some ==> settled.contains(q)
        }
}

/// Settle elements
///
/// This function settles all capsules with at least one element which would be
/// moved to an occupied tile with the next tick. The function will only settle
/// elements from the top row to the provided lowest row, inclusive.
///
/// This function returns a list the settled capsule elements' positions as well
/// as the new lowest row containing unsettled elements or `None` If there are
/// none left.
pub fn settle_elements(
    moving_field: &mut MovingField,
    static_field: &mut StaticField,
    lowest: RowIndex,
) -> (r: (Settled, Option<RowIndex>))
    ensures
        r.0@.no_duplicates(),
        forall|p: (int, int)|
            #[trigger] r.0@.contains(p) ==> in_field(p) && old(moving_field).tile(p) is Some,
        forall|t: Set<(int, int)>|
            #[trigger] settle_closed(&*old(moving_field), &*old(static_field), lowest@, t)
                ==> r.0@.to_set().subset_of(t),
        forall|p: (int, int)|
            in_field(p) && p.0 <= lowest@ && #[trigger] old(moving_field).tile(p) is Some
                && is_supported(&*old(static_field), r.0@.to_set(), p) ==> r.0@.contains(p),
        moving_consistent(&*old(moving_field)) ==> settle_closed(
            &*old(moving_field),
            &*old(static_field),
            lowest@,
            r.0@.to_set(),
        ),
        settle_transfer(
            *old(moving_field),
            *old(static_field),
            r.0@,
            *final(moving_field),
            *final(static_field),
        ),
        forall|i: MovingRowIndex| #[trigger]
            final(moving_field).spec_row_of(i) == old(moving_field).spec_row_of(i),
        match r.1 {
            Some(l) => {
                &&& l@ <= lowest@
                &&& row_has_element(&*final(moving_field), l@)
                &&& forall|row: int|
                    l@ < row <= lowest@ ==> !#[trigger] row_has_element(&*final(moving_field), row)
            },
            None => forall|row: int|
                0 <= row <= lowest@ ==> !#[trigger] row_has_element(&*final(moving_field), row),
        },
{
    let ghost m0 = *moving_field;
    let ghost s0 = *static_field;
    let ghost low = lowest@;
    let ghost mut sv: Seq<(int, int)> = Seq::empty();
    let mut settled: Vec<Position> = Vec::new();
    proof {
        lemma_settle_start(m0, s0, low);
        assert(settled@.map_values(|p: Position| pos_view(p)) =~= sv);
    }

    let low_row = lowest.index();
    let total = (low_row + 1) * (FIELD_WIDTH as usize);
    let mut k: usize = 0;
    while k < total
        invariant
            low_row == low,
            0 <= low < FIELD_HEIGHT,
            total == (low + 1) * FIELD_WIDTH,
            k <= total,
            settled@.map_values(|p: Position| pos_view(p)) == sv,
            sv.no_duplicates(),
            settle_tiles(m0, s0, *moving_field, *static_field, sv),
            settle_minimal(m0, s0, low, sv),
            settle_supported_upto(m0, s0, low, k as int, sv),
            settle_partners(m0, sv),
        decreases total - k,
    {
        let row = low_row - k / (FIELD_WIDTH as usize);
        let col = k % (FIELD_WIDTH as usize);
        let pos = position(row, col);
        assert(settle_order(low, pos_view(pos)) == k);
        let Ghost(next) = settle_tile(
            moving_field,
            static_field,
            &mut settled,
            pos,
            Ghost(m0),
            Ghost(s0),
            Ghost(low),
            Ghost(sv),
        );
        proof {
            sv = next;
        }
        k = k + 1;
    }
    proof {
        reveal(settle_tiles);
        reveal(settle_minimal);
        reveal(settle_supported_upto);
        reveal(settle_partners);
        assert forall|p: (int, int)|
            in_field(p) && p.0 <= low && #[trigger] m0.tile(p) is Some && is_supported(
                &s0,
                sv.to_set(),
                p,
            ) implies sv.contains(p) by {
            assert(settle_order(low, p) < total);
        }
        if moving_consistent(&m0) {
            assert forall|p: (int, int)|
                #[trigger] sv.to_set().contains(p) && m0.tile(p) is Some && partner_position(
                    m0.tile(p)->0,
                    p,
                ) is Some implies {
                let q = partner_position(m0.tile(p)->0, p)->0;
                in_field(q) && m0.tile(q) is Some ==> sv.to_set().contains(q)
            } by {
                assert(sv.contains(p));
            }
        }
    }
    let lowest = lowest_moving_row(moving_field, lowest);
    let r = Settled { elements: settled };
    assert(r@ == sv);
    (r, lowest)
}

/// Starting state of the settling process
proof fn lemma_settle_start(m0: MovingField, s0: StaticField, low: int)
    ensures
        settle_tiles(m0, s0, m0, s0, Seq::empty()),
        settle_minimal(m0, s0, low, Seq::empty()),
        settle_supported_upto(m0, s0, low, 0, Seq::empty()),
        settle_partners(m0, Seq::empty()),
{
    reveal(settle_tiles);
    reveal(settle_minimal);
    reveal(settle_supported_upto);
    reveal(settle_partners);
    assert forall|t: Set<(int, int)>| #[trigger]
        settle_closed(&m0, &s0, low, t) implies Seq::<(int, int)>::empty().to_set().subset_of(
        t,
    ) by {
        assert(Seq::<(int, int)>::empty().to_set() =~= Set::empty());
    }
}

/// Perform the settling step for the tile at `pos`
fn settle_tile(
    moving_field: &mut MovingField,
    static_field: &mut StaticField,
    settled: &mut Vec<Position>,
    pos: Position,
    Ghost(m0): Ghost<MovingField>,
    Ghost(s0): Ghost<StaticField>,
    Ghost(low): Ghost<int>,
    Ghost(sv): Ghost<Seq<(int, int)>>,
) -> (next: Ghost<Seq<(int, int)>>)
    requires
        0 <= low < FIELD_HEIGHT,
        pos_view(pos).0 <= low,
        old(settled)@.map_values(|p: Position| pos_view(p)) == sv,
        sv.no_duplicates(),
        settle_tiles(m0, s0, *old(moving_field), *old(static_field), sv),
        settle_minimal(m0, s0, low, sv),
        settle_supported_upto(m0, s0, low, settle_order(low, pos_view(pos)), sv),
        settle_partners(m0, sv),
    ensures
        final(settled)@.map_values(|p: Position| pos_view(p)) == next@,
        next@.no_duplicates(),
        settle_tiles(m0, s0, *final(moving_field), *final(static_field), next@),
        settle_minimal(m0, s0, low, next@),
        settle_supported_upto(m0, s0, low, settle_order(low, pos_view(pos)) + 1, next@),
        settle_partners(m0, next@),
{
    let ghost p = pos_view(pos);
    let ghost k = settle_order(low, p);
    let row = pos.0.index();
    let col = pos.1.index();
    let below_occupied = if row + 1 < FIELD_HEIGHT as usize {
        static_field.get(position(row + 1, col)).is_occupied()
    } else {
        true
    };
    proof {
        reveal(settle_tiles);
        assert(below_occupied == is_supported(&s0, sv.to_set(), p));
    }
    if !below_occupied {
        proof {
            lemma_settle_skip(m0, s0, low, sv, p);
        }
        return Ghost(sv);
    }
    let element = match moving_field.take(pos) {
        Some(e) => e,
        None => {
            proof {
                reveal(settle_tiles);
                lemma_settle_skip(m0, s0, low, sv, p);
            }
            return Ghost(sv);
        },
    };
    let ghost m1 = *moving_field;
    proof {
        reveal(settle_tiles);
        assert(!sv.contains(p));
        assert(element == m0.tile(p)->0);
    }
    let partner = take_partner(moving_field, pos, element);
    settled.push(pos);
    static_field.set(pos, TileContents::CapsuleElement(element));
    let ghost partner_pos = match partner {
        Some((q, _)) => Some(pos_view(q)),
        None => None,
    };
    let ghost next = settle_next(sv, p, partner_pos);
    proof {
        reveal(settle_tiles);
        lemma_push_unique(sv, p);
        lemma_push_contains(sv, p);
    }
    match partner {
        Some((q, e)) => {
            settled.push(q);
            static_field.set(q, TileContents::CapsuleElement(e));
            proof {
                lemma_push_unique(sv.push(p), pos_view(q));
            }
        },
        None => {},
    }
    proof {
        assert(settled@.map_values(|p: Position| pos_view(p)) =~= next);
        assert(settle_add_requires(m0, s0, low, sv, p, partner_pos));
        lemma_settle_add_minimal(m0, s0, low, sv, p, partner_pos);
        lemma_settle_add_supported(m0, s0, low, sv, p, partner_pos);
        lemma_settle_add_partners(m0, s0, low, sv, p, partner_pos);
        lemma_settle_next_contains(sv, p, partner_pos);
        assert(settle_tiles(m0, s0, *moving_field, *static_field, next)) by {
            reveal(settle_tiles);
            assert forall|x: (int, int)| #[trigger] next.contains(x) implies in_field(x) && m0.tile(
                x,
            ) is Some by {
                if x != p && partner_pos != Some(x) {
                    assert(sv.contains(x));
                }
            }
            assert forall|x: (int, int)| #[trigger]
                moving_field.tile(x) == if next.contains(x) {
                    None
                } else {
                    m0.tile(x)
                } by {
                assert(m1.tile(x) == if sv.contains(x) || x == p {
                    None
                } else {
                    m0.tile(x)
                });
            }
        }
    }
    Ghost(next)
}

/// Take the partner of `element`, located at `pos`, from the moving field
fn take_partner(moving_field: &mut MovingField, pos: Position, element: CapsuleElement) -> (r:
    Option<(Position, CapsuleElement)>)
    ensures
        r matches Some((q, e)) ==> {
            &&& partner_position(element, pos_view(pos)) == Some(pos_view(q))
            &&& in_field(pos_view(q))
            &&& old(moving_field).tile(pos_view(q)) == Some(e)
            &&& forall|x: (int, int)| #[trigger]
                final(moving_field).tile(x) == if x == pos_view(q) {
                    None
                } else {
                    old(moving_field).tile(x)
                }
        },
        r is None ==> {
            &&& forall|x: (int, int)| #[trigger]
                final(moving_field).tile(x) == old(moving_field).tile(x)
            &&& !(partner_position(element, pos_view(pos)) matches Some(q) && in_field(q)
                && old(moving_field).tile(q) is Some)
        },
        forall|i: MovingRowIndex| #[trigger]
            final(moving_field).spec_row_of(i) == old(moving_field).spec_row_of(i),
{
    match element.partner() {
        Some(d) => match neighbour(pos, d) {
            Some(q) => match moving_field.take(q) {
                Some(e) => Some((q, e)),
                None => {
                    assert forall|x: (int, int)| #[trigger]
                        moving_field.tile(x) == old(moving_field).tile(x) by {
                        if x == pos_view(q) {
                        }
                    }
                    None
                },
            },
            None => None,
        },
        None => None,
    }
}

/// Two tiles visited at the same step of the settling process are the same tile
proof fn lemma_settle_order_injective(low: int, p: (int, int), q: (int, int))
    requires
        in_field(p),
        in_field(q),
        settle_order(low, p) == settle_order(low, q),
    ensures
        p == q,
{
    if p.0 < q.0 {
        assert(settle_order(low, p) >= settle_order(low, q) + 1);
    } else if p.0 > q.0 {
        assert(settle_order(low, q) >= settle_order(low, p) + 1);
    }
}

/// A tile whose element does not settle keeps the settled elements unchanged
proof fn lemma_settle_skip(
    m0: MovingField,
    s0: StaticField,
    low: int,
    sv: Seq<(int, int)>,
    p: (int, int),
)
    requires
        in_field(p),
        p.0 <= low,
        settle_supported_upto(m0, s0, low, settle_order(low, p), sv),
        m0.tile(p) is Some && is_supported(&s0, sv.to_set(), p) ==> sv.contains(p),
    ensures
        settle_supported_upto(m0, s0, low, settle_order(low, p) + 1, sv),
{
    reveal(settle_supported_upto);
    assert forall|x: (int, int)|
        in_field(x) && x.0 <= low && settle_order(low, x) < settle_order(low, p) + 1
            && #[trigger] m0.tile(x) is Some && is_supported(
            &s0,
            sv.to_set(),
            x,
        ) implies sv.contains(x) by {
        if settle_order(low, x) == settle_order(low, p) {
            lemma_settle_order_injective(low, x, p);
        }
    }
}

/// Membership in a sequence extended by one element
proof fn lemma_push_contains(s: Seq<(int, int)>, a: (int, int))
    ensures
        forall|x: (int, int)| #[trigger] s.push(a).contains(x) <==> s.contains(x) || x == a,
        forall|x: (int, int)| #[trigger] s.push(a).to_set().contains(x) <==> s.contains(x) || x == a,
{
    assert forall|x: (int, int)| #[trigger] s.push(a).contains(x) <==> s.contains(x) || x == a by {
        if s.contains(x) {
            let i = choose|i: int| 0 <= i < s.len() && s[i] == x;
            assert(s.push(a)[i] == x);
        }
        if x == a {
            assert(s.push(a)[s.len() as int] == a);
        }
        if s.push(a).contains(x) && x != a {
            let i = choose|i: int| 0 <= i < s.len() + 1 && s.push(a)[i] == x;
            assert(s[i] == x);
        }
    }
}

/// The requirements on the tile at `p` and its partner for settling them
pub open spec fn settle_add_requires(
    m0: MovingField,
    s0: StaticField,
    low: int,
    sv: Seq<(int, int)>,
    p: (int, int),
    partner: Option<(int, int)>,
) -> bool {
    &&& in_field(p)
    &&& p.0 <= low
    &&& m0.tile(p) is Some
    &&& is_supported(&s0, sv.to_set(), p)
    &&& !sv.contains(p)
    &&& match partner {
        Some(q) => {
            &&& partner_position(m0.tile(p)->0, p) == Some(q)
            &&& in_field(q)
            &&& m0.tile(q) is Some
            &&& !sv.contains(q)
        },
        None => partner_position(m0.tile(p)->0, p) matches Some(q) ==> (in_field(q) && m0.tile(
            q,
        ) is Some ==> sv.contains(q)),
    }
}

/// The settled elements after settling `p` and its partner
pub open spec fn settle_next(sv: Seq<(int, int)>, p: (int, int), partner: Option<(int, int)>) -> Seq<
    (int, int),
> {
    match partner {
        Some(q) => sv.push(p).push(q),
        None => sv.push(p),
    }
}

/// Membership in the settled elements after settling `p` and its partner
proof fn lemma_settle_next_contains(sv: Seq<(int, int)>, p: (int, int), partner: Option<(int, int)>)
    ensures
        forall|x: (int, int)| #[trigger]
            settle_next(sv, p, partner).contains(x) <==> sv.contains(x) || x == p || partner
                == Some(x),
        forall|x: (int, int)| #[trigger]
            settle_next(sv, p, partner).to_set().contains(x) <==> sv.contains(x) || x == p
                || partner == Some(x),
{
    lemma_push_contains(sv, p);
    if let Some(q) = partner {
        lemma_push_contains(sv.push(p), q);
    }
}

/// Settling the element at `p`, and its partner, keeps the settled elements minimal
proof fn lemma_settle_add_minimal(
    m0: MovingField,
    s0: StaticField,
    low: int,
    sv: Seq<(int, int)>,
    p: (int, int),
    partner: Option<(int, int)>,
)
    requires
        settle_add_requires(m0, s0, low, sv, p, partner),
        settle_minimal(m0, s0, low, sv),
    ensures
        settle_minimal(m0, s0, low, settle_next(sv, p, partner)),
{
    reveal(settle_minimal);
    let next = settle_next(sv, p, partner);
    lemma_settle_next_contains(sv, p, partner);
    assert forall|t: Set<(int, int)>| #[trigger]
        settle_closed(&m0, &s0, low, t) implies next.to_set().subset_of(t) by {
        assert(sv.to_set().subset_of(t));
        assert(is_supported(&s0, t, p));
        assert(t.contains(p));
        if let Some(q) = partner {
            assert(t.contains(p) && m0.tile(p) is Some && partner_position(m0.tile(p)->0, p)
                is Some);
            assert(t.contains(q));
        }
        assert forall|x: (int, int)| next.to_set().contains(x) implies t.contains(x) by {
            if sv.contains(x) {
                assert(sv.to_set().contains(x));
            }
        }
    }
}

/// Settling the element at `p`, and its partner, settles all supported elements visited
proof fn lemma_settle_add_supported(
    m0: MovingField,
    s0: StaticField,
    low: int,
    sv: Seq<(int, int)>,
    p: (int, int),
    partner: Option<(int, int)>,
)
    requires
        settle_add_requires(m0, s0, low, sv, p, partner),
        settle_supported_upto(m0, s0, low, settle_order(low, p), sv),
    ensures
        settle_supported_upto(m0, s0, low, settle_order(low, p) + 1, settle_next(sv, p, partner)),
{
    reveal(settle_supported_upto);
    let next = settle_next(sv, p, partner);
    lemma_settle_next_contains(sv, p, partner);
    assert forall|x: (int, int)|
        in_field(x) && x.0 <= low && settle_order(low, x) < settle_order(low, p) + 1
            && #[trigger] m0.tile(x) is Some && is_supported(
            &s0,
            next.to_set(),
            x,
        ) implies next.contains(x) by {
        if x != p {
            if settle_order(low, x) == settle_order(low, p) {
                lemma_settle_order_injective(low, x, p);
            }
            let b = (x.0 + 1, x.1);
            if next.to_set().contains(b) && !sv.contains(b) {
                if b == p {
                    assert(settle_order(low, x) > settle_order(low, p));
                } else {
                    let d = m0.tile(p)->0.spec_partner()->0;
                    assert(partner == Some(b));
                    assert(b == spec_neighbour(p, d));
                    assert(settle_order(low, x) > settle_order(low, p));
                }
            }
            assert(is_supported(&s0, sv.to_set(), x));
        }
    }
}

/// Settling the element at `p`, and its partner, keeps partners of settled elements settled
proof fn lemma_settle_add_partners(
    m0: MovingField,
    s0: StaticField,
    low: int,
    sv: Seq<(int, int)>,
    p: (int, int),
    partner: Option<(int, int)>,
)
    requires
        settle_add_requires(m0, s0, low, sv, p, partner),
        settle_partners(m0, sv),
    ensures
        settle_partners(m0, settle_next(sv, p, partner)),
{
    reveal(settle_partners);
    let next = settle_next(sv, p, partner);
    lemma_settle_next_contains(sv, p, partner);
    if moving_consistent(&m0) {
        assert forall|x: (int, int)|
            #[trigger] next.contains(x) && m0.tile(x) is Some && partner_position(
                m0.tile(x)->0,
                x,
            ) is Some implies {
            let y = partner_position(m0.tile(x)->0, x)->0;
            in_field(y) && m0.tile(y) is Some ==> next.contains(y)
        } by {
            if x != p && Some(x) != partner {
                assert(sv.contains(x));
            } else if Some(x) == partner && x != p {
                lemma_moving_consistent_at(&m0, p);
            }
        }
    }
}

/// The positions covered by the given rows, in order
pub open spec fn rows_positions(rows: Seq<(Colour, RowOfFour)>) -> Seq<(int, int)>
    decreases rows.len(),
{
    if rows.len() == 0 {
        Seq::empty()
    } else {
        rows_positions(rows.drop_last()) + rows.last().1.spec_positions()
    }
}

/// Eliminated rows
pub struct Eliminated {
    rows: Vec<(Colour, RowOfFour)>,
}

impl View for Eliminated {
    type V = Seq<(Colour, RowOfFour)>;

    closed spec fn view(&self) -> Seq<(Colour, RowOfFour)> {
        self.rows@
    }
}

impl Eliminated {
    /// Create a record of eliminated rows
    pub fn new(rows: Vec<(Colour, RowOfFour)>) -> (r: Self)
        ensures
            r@ == rows@,
    {
        Eliminated { rows }
    }

    /// Retrieve the colour and position of eliminated rows
    pub fn rows_of_four(&self) -> (r: &Vec<(Colour, RowOfFour)>)
        ensures
            r@ == self@,
    {
        &self.rows
    }

    /// Retrieve the number of rows eliminated
    pub fn row_count(&self) -> (r: usize)
        ensures
            r == self@.len(),
    {
        self.rows.len()
    }

    /// Retrieve the positions of eliminated elements
    pub fn positions(&self) -> (r: Vec<Position>)
        ensures
            r@.map_values(|p: Position| pos_view(p)) == rows_positions(self@),
    {
        let mut res: Vec<Position> = Vec::new();
        let mut i: usize = 0;
        while i < self.rows.len()
            invariant
                i <= self.rows.len(),
                res@.map_values(|p: Position| pos_view(p)) == rows_positions(self.rows@.take(i as int)),
            decreases self.rows.len() - i,
        {
            let ps = self.rows[i].1.positions();
            let ghost before = res@;
            let mut j: usize = 0;
            while j < ps.len()
                invariant
                    j <= ps.len(),
                    res@.len() == before.len() + j,
                    forall|x: int| 0 <= x < before.len() ==> #[trigger] res@[x] == before[x],
                    forall|x: int| 0 <= x < j ==> #[trigger] pos_view(res@[before.len() + x]) == pos_view(ps[x]),
                decreases ps.len() - j,
            {
                res.push(ps[j]);
                j = j + 1;
            }
            proof {
                let t = self.rows@.take(i + 1);
                assert(t.drop_last() =~= self.rows@.take(i as int));
                assert(t.last() == self.rows@[i as int]);
                let prefix = rows_positions(self.rows@.take(i as int));
                let row = self.rows@[i as int].1.spec_positions();
                assert(before.map_values(|p: Position| pos_view(p)) == prefix);
                assert forall|x: int| 0 <= x < res@.len() implies res@.map_values(
                    |p: Position| pos_view(p),
                )[x] == (prefix + row)[x] by {
                    if x < before.len() {
                        assert(res@[x] == before[x]);
                        assert(before.map_values(|p: Position| pos_view(p))[x] == prefix[x]);
                    } else {
                        assert(pos_view(res@[before.len() + (x - before.len())]) == pos_view(
                            ps[x - before.len()],
                        ));
                    }
                }
                assert(res@.map_values(|p: Position| pos_view(p)) =~= prefix + row);
                assert(rows_positions(t) == prefix + row);
            }
            i = i + 1;
        }
        assert(self.rows@.take(self.rows.len() as int) =~= self.rows@);
        res
    }
}

/// Whether a list of rows of four holds the given row
fn contains_row(rows: &Vec<(Colour, RowOfFour)>, row: &(Colour, RowOfFour)) -> (r: bool)
    ensures
        r == rows@.contains(*row),
{
    let mut i: usize = 0;
    while i < rows.len()
        invariant
            i <= rows.len(),
            forall|j: int| 0 <= j < i ==> rows@[j] != *row,
        decreases rows.len() - i,
    {
        if rows[i].0 == row.0 && rows[i].1 == row.1 {
            assert(rows@[i as int] == *row);
            return true;
        }
        i = i + 1;
    }
    false
}

/// `row` is the row of four through one of the given positions
pub open spec fn row_found(field: &StaticField, hints: Seq<(int, int)>, row: (Colour, RowOfFour)) -> bool {
    exists|j: int| 0 <= j < hints.len() && #[trigger] row_of_four_result(field, hints[j], Some(row))
}

/// The row of four through `hint`, if any, is among `rows`
pub open spec fn hint_collected(
    field: &StaticField,
    hint: (int, int),
    rows: Seq<(Colour, RowOfFour)>,
) -> bool {
    exists|r: Option<(Colour, RowOfFour)>|
        #[trigger] row_of_four_result(field, hint, r) && (r matches Some(x) ==> rows.contains(x))
}

/// `rows` are the distinct rows of four found through the given positions
pub open spec fn collected_rows(
    field: &StaticField,
    hints: Seq<(int, int)>,
    rows: Seq<(Colour, RowOfFour)>,
) -> bool {
    &&& rows.no_duplicates()
    &&& forall|i: int| 0 <= i < rows.len() ==> #[trigger] row_found(field, hints, rows[i])
    &&& forall|j: int| 0 <= j < hints.len() ==> #[trigger] hint_collected(field, hints[j], rows)
}

/// Find the rows of four through the given positions
fn collect_rows(field: &StaticField, hints: &Vec<Position>) -> (rows: Vec<(Colour, RowOfFour)>)
    ensures
        collected_rows(field, hints@.map_values(|p: Position| pos_view(p)), rows@),
{
    let mut rows: Vec<(Colour, RowOfFour)> = Vec::new();
    let ghost mut source: Seq<int> = Seq::empty();
    let ghost mut results: Seq<Option<(Colour, RowOfFour)>> = Seq::empty();
    let mut j: usize = 0;
    while j < hints.len()
        invariant
            j <= hints.len(),
            rows@.no_duplicates(),
            source.len() == rows.len(),
            results.len() == j,
            forall|i: int|
                #![trigger rows@[i]]
                #![trigger source[i]]
                0 <= i < rows.len() ==> 0 <= source[i] < j && row_of_four_result(
                    field,
                    pos_view(hints[source[i]]),
                    Some(rows@[i]),
                ),
            forall|k: int|
                #![trigger results[k]]
                0 <= k < j ==> row_of_four_result(field, pos_view(hints[k]), results[k]) && (
                results[k] matches Some(x) ==> rows@.contains(x)),
        decreases hints.len() - j,
    {
        let hint = hints[j];
        let found = row_of_four(field, hint);
        assert(row_of_four_result(field, pos_view(hints[j as int]), found));
        let ghost before = rows@;
        let ghost source_before = source;
        let ghost results_before = results;
        match found {
            Some(x) => {
                if !contains_row(&rows, &x) {
                    rows.push(x);
                    proof {
                        source = source.push(j as int);
                        assert forall|a: int, b: int|
                            0 <= a < rows.len() && 0 <= b < rows.len() && a != b implies rows@[a]
                            != rows@[b] by {
                            if a == before.len() {
                                assert(rows@[b] == before[b]);
                            } else if b == before.len() {
                                assert(rows@[a] == before[a]);
                            }
                        }
                        assert(rows@[rows.len() - 1] == x);
                        assert forall|i: int|
                            #![trigger rows@[i]]
                            0 <= i < rows.len() implies 0 <= source[i] < j + 1 && row_of_four_result(
                                field,
                                pos_view(hints[source[i]]),
                                Some(rows@[i]),
                            ) by {
                            if i < before.len() {
                                assert(rows@[i] == before[i]);
                                assert(source[i] == source_before[i]);
                            } else {
                                assert(source[i] == j);
                                assert(rows@[i] == x);
                            }
                        }
                    }
                }
                assert(rows@.contains(x));
            },
            None => {},
        }
        proof {
            results = results.push(found);
            assert forall|k: int|
                #![trigger results[k]]
                0 <= k < j + 1 implies row_of_four_result(field, pos_view(hints[k]), results[k]) && (
                results[k] matches Some(x) ==> rows@.contains(x)) by {
                if k < j {
                    assert(results[k] == results_before[k]);
                    if let Some(x) = results[k] {
                        assert(before.contains(x));
                        let a = choose|a: int| 0 <= a < before.len() && before[a] == x;
                        assert(rows@[a] == x);
                    }
                }
            }
        }
        j = j + 1;
    }
    let ghost hv = hints@.map_values(|p: Position| pos_view(p));
    assert forall|i: int| 0 <= i < rows.len() implies #[trigger] row_found(field, hv, rows@[i]) by {
        assert(hv[source[i]] == pos_view(hints[source[i]]));
        assert(row_of_four_result(field, hv[source[i]], Some(rows@[i])));
    }
    assert forall|k: int| 0 <= k < hv.len() implies #[trigger] hint_collected(field, hv[k], rows@) by {
        assert(hv[k] == pos_view(hints[k]));
        assert(row_of_four_result(field, hv[k], results[k]));
    }
    rows
}

/// The tile at `q` after eliminating the tiles at the positions `e` from `field`
///
/// Eliminated tiles become free, and elements bound to an eliminated element
/// lose their partner.
pub open spec fn eliminated_tile(field: &StaticField, e: Set<(int, int)>, q: (int, int)) -> TileContents {
    if e.contains(q) {
        TileContents::Empty
    } else {
        match static_partner(field, q) {
            Some(t) => if e.contains(t) {
                TileContents::CapsuleElement(field.tile(q).spec_element()->0.spec_with_partner(None))
            } else {
                field.tile(q)
            },
            None => field.tile(q),
        }
    }
}

/// A tile is either unchanged or its element lost its partner
pub open spec fn unchanged_or_unbound(before: TileContents, after: TileContents) -> bool {
    ||| after == before
    ||| (before.spec_element() matches Some(e) && after == TileContents::CapsuleElement(
        e.spec_with_partner(None),
    ))
}

/// Eliminating tiles at the positions `e`: these tiles are free, others unchanged or unbound
#[verifier::opaque]
pub open spec fn clear_weak(old: StaticField, cur: StaticField, e: Set<(int, int)>) -> bool {
    forall|q: (int, int)| #[trigger]
        cur.tile(q) == if e.contains(q) {
            TileContents::Empty
        } else {
            cur.tile(q)
        } && (!e.contains(q) ==> unchanged_or_unbound(old.tile(q), cur.tile(q)))
}

/// Eliminating tiles at the positions `e` from a consistent field yields the eliminated tiles
#[verifier::opaque]
pub open spec fn clear_exact(old: StaticField, cur: StaticField, e: Set<(int, int)>) -> bool {
    static_consistent(&old) ==> forall|q: (int, int)| #[trigger]
        cur.tile(q) == eliminated_tile(&old, e, q)
}

/// Unbind the partner of the element `el` located at `pos`, if any
fn unbind_partner(field: &mut StaticField, pos: Position, el: CapsuleElement) -> (touched: Option<
    Position,
>)
    ensures
        touched is Some <==> (el.spec_partner() matches Some(d) && in_field(
            spec_neighbour(pos_view(pos), d),
        ) && old(field).tile(spec_neighbour(pos_view(pos), d)).spec_element() is Some),
        touched matches Some(q) ==> {
            &&& pos_view(q) == spec_neighbour(pos_view(pos), el.spec_partner()->0)
            &&& final(field).tile(pos_view(q)) == TileContents::CapsuleElement(
                old(field).tile(pos_view(q)).spec_element()->0.spec_with_partner(None),
            )
        },
        forall|x: (int, int)|
            !(touched matches Some(q) && x == pos_view(q)) ==> #[trigger] final(field).tile(x)
                == old(field).tile(x),
{
    match el.partner() {
        Some(d) => match neighbour(pos, d) {
            Some(q) => {
                let tq = field.get(q);
                match tq {
                    TileContents::CapsuleElement(eq) => {
                        let mut eq = eq;
                        eq.set_partner(None);
                        field.set(q, TileContents::CapsuleElement(eq));
                        Some(q)
                    },
                    _ => None,
                }
            },
            None => None,
        },
        None => None,
    }
}

/// Eliminate the tile at `pos`, unbinding any partner of its element
fn clear_tile(
    field: &mut StaticField,
    pos: Position,
    Ghost(orig): Ghost<StaticField>,
    Ghost(e): Ghost<Set<(int, int)>>,
)
    requires
        forall|q: (int, int)| #[trigger] e.contains(q) ==> in_field(q),
        clear_weak(orig, *old(field), e),
        clear_exact(orig, *old(field), e),
    ensures
        clear_weak(orig, *final(field), e.insert(pos_view(pos))),
        clear_exact(orig, *final(field), e.insert(pos_view(pos))),
{
    broadcast use super::items::CapsuleElement::lemma_with_partner;
    broadcast use StaticField::lemma_tile_outside;

    let ghost p = pos_view(pos);
    let ghost cur = *field;
    let ghost e2 = e.insert(p);
    proof {
        reveal(clear_weak);
        reveal(clear_exact);
    }
    let t = field.take(pos);
    let ghost c1 = *field;
    let touched = match t {
        TileContents::CapsuleElement(el) => unbind_partner(field, pos, el),
        _ => None,
    };
    proof {
        let tq = match touched {
            Some(q) => Some(pos_view(q)),
            None => None,
        };
        assert(forall|x: (int, int)| x != p ==> #[trigger] c1.tile(x) == cur.tile(x));
        assert(field.tile(p) == TileContents::Empty);
        if let Some(q) = touched {
            let d = t.spec_element()->0.spec_partner()->0;
            assert(pos_view(q) == spec_neighbour(p, d));
            assert(pos_view(q) != p);
            assert(c1.tile(pos_view(q)) == cur.tile(pos_view(q)));
        }
        // Weak part
        assert forall|x: (int, int)| #[trigger]
            field.tile(x) == if e2.contains(x) {
                TileContents::Empty
            } else {
                field.tile(x)
            } && (!e2.contains(x) ==> unchanged_or_unbound(orig.tile(x), field.tile(x))) by {
            assert(cur.tile(x) == if e.contains(x) {
                TileContents::Empty
            } else {
                cur.tile(x)
            });
            if tq == Some(x) && !e2.contains(x) {
                assert(unchanged_or_unbound(orig.tile(x), cur.tile(x)));
                assert(cur.tile(x).spec_element() is Some);
                let ce = cur.tile(x).spec_element()->0;
                assert(field.tile(x) == TileContents::CapsuleElement(ce.spec_with_partner(None)));
                if cur.tile(x) != orig.tile(x) {
                    let oe = orig.tile(x).spec_element()->0;
                    assert(ce == oe.spec_with_partner(None));
                    assert(ce.spec_with_partner(None) == oe.spec_with_partner(None));
                }
            }
        }
        // Exact part
        if static_consistent(&orig) {
            lemma_clear_exact_step(orig, e, p, cur, *field, t, tq);
        }
    }
}

/// Eliminating one more tile from a consistent field
proof fn lemma_clear_exact_step(
    orig: StaticField,
    e: Set<(int, int)>,
    p: (int, int),
    cur: StaticField,
    next: StaticField,
    t: TileContents,
    touched: Option<(int, int)>,
)
    requires
        static_consistent(&orig),
        in_field(p),
        forall|q: (int, int)| #[trigger] e.contains(q) ==> in_field(q),
        forall|x: (int, int)| #[trigger] cur.tile(x) == eliminated_tile(&orig, e, x),
        t == cur.tile(p),
        next.tile(p) == TileContents::Empty,
        touched is Some <==> (t.spec_element() matches Some(el) && el.spec_partner() matches Some(d)
            && in_field(spec_neighbour(p, d)) && spec_neighbour(p, d) != p && cur.tile(
            spec_neighbour(p, d),
        ).spec_element() is Some),
        touched matches Some(q) ==> {
            &&& q == spec_neighbour(p, t.spec_element()->0.spec_partner()->0)
            &&& next.tile(q) == TileContents::CapsuleElement(
                cur.tile(q).spec_element()->0.spec_with_partner(None),
            )
        },
        forall|x: (int, int)|
            x != p && touched != Some(x) ==> #[trigger] next.tile(x) == cur.tile(x),
    ensures
        forall|x: (int, int)| #[trigger] next.tile(x) == eliminated_tile(&orig, e.insert(p), x),
{
    broadcast use super::items::CapsuleElement::lemma_with_partner;
    broadcast use StaticField::lemma_tile_outside;

    let e2 = e.insert(p);
    assert(cur.tile(p) == eliminated_tile(&orig, e, p));
    if orig.tile(p).spec_element() is Some && orig.tile(p).spec_element()->0.spec_partner() is Some {
        lemma_static_consistent_at(&orig, p);
    }
    assert forall|x: (int, int)| #[trigger] next.tile(x) == eliminated_tile(&orig, e2, x) by {
        assert(cur.tile(x) == eliminated_tile(&orig, e, x));
        if e.contains(p) {
            assert(e2 =~= e);
        } else if x == p {
        } else if e.contains(x) {
        } else {
            if static_partner(&orig, x) == Some(p) {
                assert(in_field(x));
                lemma_static_consistent_at(&orig, x);
                assert(static_partner(&orig, p) == Some(x));
                assert(touched == Some(x));
            }
            if touched == Some(x) {
                assert(t == eliminated_tile(&orig, e, p));
                match static_partner(&orig, p) {
                    Some(t0) => {
                        if e.contains(t0) {
                            assert(t.spec_element()->0.spec_partner() is None);
                        }
                    },
                    None => {},
                }
                assert(static_partner(&orig, p) == Some(x));
                lemma_static_consistent_at(&orig, p);
                assert(static_partner(&orig, x) == Some(p));
            }
        }
    }
}

/// Eliminate the tiles at the given positions
fn clear_positions(field: &mut StaticField, positions: &Vec<Position>)
    ensures
        clear_weak(*old(field), *final(field), positions@.map_values(|p: Position| pos_view(p)).to_set()),
        clear_exact(*old(field), *final(field), positions@.map_values(|p: Position| pos_view(p)).to_set()),
{
    let ghost orig = *field;
    let ghost mut e: Set<(int, int)> = Set::empty();
    proof {
        reveal(clear_weak);
        reveal(clear_exact);
        assert forall|x: (int, int)| #[trigger] field.tile(x) == eliminated_tile(&orig, e, x) by {
            match static_partner(&orig, x) {
                Some(t) => {},
                None => {},
            }
        }
    }
    let mut i: usize = 0;
    while i < positions.len()
        invariant
            i <= positions.len(),
            e == positions@.take(i as int).map_values(|p: Position| pos_view(p)).to_set(),
            forall|q: (int, int)| #[trigger] e.contains(q) ==> in_field(q),
            clear_weak(orig, *field, e),
            clear_exact(orig, *field, e),
        decreases positions.len() - i,
    {
        clear_tile(field, positions[i], Ghost(orig), Ghost(e));
        proof {
            let next = positions@.take(i + 1).map_values(|p: Position| pos_view(p)).to_set();
            assert(positions@.take(i + 1).map_values(|p: Position| pos_view(p)) =~= positions@.take(
                i as int,
            ).map_values(|p: Position| pos_view(p)).push(pos_view(positions[i as int])));
            lemma_push_contains(
                positions@.take(i as int).map_values(|p: Position| pos_view(p)),
                pos_view(positions[i as int]),
            );
            assert(next =~= e.insert(pos_view(positions[i as int])));
            e = next;
        }
        i = i + 1;
    }
    assert(positions@.take(positions.len() as int) =~= positions@);
}

/// Eliminate elements
///
/// This function eliminates rows of four from the field of settled elements.
/// These rows of four are detected based on hints provided in the form of
/// settled elements. The function will return a type encapsulating the
/// individual rows. Elements bound to an eliminated element lose their partner.
pub fn eliminate_elements(field: &mut StaticField, settled: &Settled) -> (r: Eliminated)
    ensures
        collected_rows(&*old(field), settled@, r@),
        forall|q: (int, int)|
            #[trigger] rows_positions(r@).contains(q) ==> final(field).tile(q)
                == TileContents::Empty,
        forall|q: (int, int)|
            !rows_positions(r@).contains(q) ==> unchanged_or_unbound(
                old(field).tile(q),
                #[trigger] final(field).tile(q),
            ),
        static_consistent(&*old(field)) ==> forall|q: (int, int)| #[trigger]
            final(field).tile(q) == eliminated_tile(&*old(field), rows_positions(r@).to_set(), q),
{
    let rows = collect_rows(field, &settled.elements);
    let elim = Eliminated { rows };
    let positions = elim.positions();
    let ghost before = *field;
    clear_positions(field, &positions);
    proof {
        reveal(clear_weak);
        reveal(clear_exact);
        let e = positions@.map_values(|p: Position| pos_view(p)).to_set();
        assert(e =~= rows_positions(elim@).to_set());
        assert forall|q: (int, int)| #[trigger] rows_positions(elim@).contains(q) implies field.tile(
            q,
        ) == TileContents::Empty by {
            assert(e.contains(q));
        }
        assert forall|q: (int, int)| !rows_positions(elim@).contains(q) implies unchanged_or_unbound(
            before.tile(q),
            #[trigger] field.tile(q),
        ) by {
            assert(!e.contains(q));
        }
    }
    elim
}

/// Elimination keeps capsule elements in the static field bound consistently.
///
/// If every element of a field refers to a partner that refers back, this
/// still holds after eliminating any set of tiles.
pub proof fn lemma_elimination_keeps_partnership(
    before: StaticField,
    e: Set<(int, int)>,
    after: StaticField,
)
    requires
        static_consistent(&before),
        forall|q: (int, int)| #[trigger] after.tile(q) == eliminated_tile(&before, e, q),
    ensures
        static_consistent(&after),
{
    broadcast use super::items::CapsuleElement::lemma_with_partner;
    broadcast use StaticField::lemma_tile_outside;

    reveal(static_consistent);
    assert forall|p: (int, int)| in_field(p) && #[trigger] static_partner(&after, p) is Some implies {
        let d = after.tile(p).spec_element()->0.spec_partner()->0;
        let q = spec_neighbour(p, d);
        &&& in_field(q)
        &&& after.tile(q).spec_element() is Some
        &&& after.tile(q).spec_element()->0.spec_partner() == Some(d.opposite())
    } by {
        assert(after.tile(p) == eliminated_tile(&before, e, p));
        assert(!e.contains(p));
        match static_partner(&before, p) {
            Some(t) => {
                if e.contains(t) {
                    assert(after.tile(p).spec_element()->0.spec_partner() is None);
                }
            },
            None => {},
        }
        assert(after.tile(p) == before.tile(p));
        lemma_static_consistent_at(&before, p);
        let d = before.tile(p).spec_element()->0.spec_partner()->0;
        let q = spec_neighbour(p, d);
        assert(after.tile(q) == eliminated_tile(&before, e, q));
        assert(static_partner(&before, q) == Some(p));
        if e.contains(q) {
            assert(static_partner(&before, p) == Some(q));
        }
    }
}

/// Settling keeps capsule elements bound consistently in both fields.
///
/// If the elements of both fields refer to partners which refer back and no
/// tile is occupied in both fields, this still holds after moving a set of
/// elements closed under the settling rules from the moving to the static field.
pub proof fn lemma_settle_keeps_partnership(
    m0: MovingField,
    s0: StaticField,
    lowest: int,
    settled: Seq<(int, int)>,
    m1: MovingField,
    s1: StaticField,
)
    requires
        moving_consistent(&m0),
        static_consistent(&s0),
        no_overlap(&s0, &m0),
        forall|p: (int, int)| #[trigger] settled.contains(p) ==> in_field(p) && m0.tile(p) is Some,
        settle_closed(&m0, &s0, lowest, settled.to_set()),
        settle_transfer(m0, s0, settled, m1, s1),
    ensures
        moving_consistent(&m1),
        static_consistent(&s1),
        no_overlap(&s1, &m1),
{
    reveal(moving_consistent);
    reveal(static_consistent);
    assert forall|p: (int, int)| in_field(p) && #[trigger] moving_partner(&m1, p) is Some implies {
        let d = m1.tile(p)->0.spec_partner()->0;
        let q = spec_neighbour(p, d);
        &&& in_field(q)
        &&& m1.tile(q) is Some
        &&& m1.tile(q)->0.spec_partner() == Some(d.opposite())
    } by {
        assert(!settled.contains(p));
        assert(moving_partner(&m0, p) is Some);
        lemma_moving_consistent_at(&m0, p);
        let q = spec_neighbour(p, m0.tile(p)->0.spec_partner()->0);
        if settled.contains(q) {
            assert(settled.to_set().contains(q));
            assert(partner_position(m0.tile(q)->0, q) == Some(p));
            assert(settled.to_set().contains(p));
        }
    }
    assert forall|p: (int, int)| in_field(p) && #[trigger] static_partner(&s1, p) is Some implies {
        let d = s1.tile(p).spec_element()->0.spec_partner()->0;
        let q = spec_neighbour(p, d);
        &&& in_field(q)
        &&& s1.tile(q).spec_element() is Some
        &&& s1.tile(q).spec_element()->0.spec_partner() == Some(d.opposite())
    } by {
        if settled.contains(p) {
            assert(moving_partner(&m0, p) is Some);
            lemma_moving_consistent_at(&m0, p);
            assert(settled.to_set().contains(p));
        } else {
            assert(static_partner(&s0, p) is Some);
            lemma_static_consistent_at(&s0, p);
            let q = spec_neighbour(p, s0.tile(p).spec_element()->0.spec_partner()->0);
            if settled.contains(q) {
                assert(m0.tile(q) is Some);
                assert(s0.tile(q).spec_is_occupied());
            }
        }
    }
    assert forall|p: (int, int)| #[trigger] m1.tile(p) is Some implies !s1.tile(
        p,
    ).spec_is_occupied() by {
        assert(!settled.contains(p));
        assert(m0.tile(p) is Some);
    }
}

/// A tick keeps the elements of the moving field bound consistently.
///
/// If the bottom row holds no element, no pair of partners is torn apart when
/// the rows move down, and the top row is free afterwards.
pub proof fn lemma_tick_keeps_partnership(m1: MovingField, m2: MovingField)
    requires
        moving_consistent(&m1),
        !row_has_element(&m1, FIELD_HEIGHT - 1),
        shifted_down(&m1, &m2),
    ensures
        moving_consistent(&m2),
        !row_has_element(&m2, 0),
{
    assert forall|c: int| 0 <= c < FIELD_WIDTH implies #[trigger] m2.tile((0, c)) is None by {
        assert(m2.tile((0, c)) == m1.tile((FIELD_HEIGHT - 1, c)));
    }
    reveal(moving_consistent);
    assert forall|p: (int, int)| in_field(p) && #[trigger] moving_partner(&m2, p) is Some implies {
        let d = m2.tile(p)->0.spec_partner()->0;
        let q = spec_neighbour(p, d);
        &&& in_field(q)
        &&& m2.tile(q) is Some
        &&& m2.tile(q)->0.spec_partner() == Some(d.opposite())
    } by {
        assert(p.0 != 0);
        let p1 = (p.0 - 1, p.1);
        assert(m2.tile(p) == m1.tile(p1));
        assert(moving_partner(&m1, p1) is Some);
        lemma_moving_consistent_at(&m1, p1);
        let q1 = spec_neighbour(p1, m1.tile(p1)->0.spec_partner()->0);
        assert(q1.0 != FIELD_HEIGHT - 1);
        let q = (q1.0 + 1, q1.1);
        assert(m2.tile(q) == m1.tile(q1));
    }
}

/// After settling all rows and a tick, the top row of the moving field is
/// free, no tile is occupied in both fields, and capsule elements in both
/// fields stay bound consistently.
pub proof fn lemma_settle_then_tick(
    m0: MovingField,
    s0: StaticField,
    settled: Seq<(int, int)>,
    m1: MovingField,
    s1: StaticField,
    m2: MovingField,
)
    requires
        moving_consistent(&m0),
        static_consistent(&s0),
        no_overlap(&s0, &m0),
        forall|p: (int, int)| #[trigger] settled.contains(p) ==> in_field(p) && m0.tile(p) is Some,
        settle_closed(&m0, &s0, FIELD_HEIGHT - 1, settled.to_set()),
        settle_transfer(m0, s0, settled, m1, s1),
        shifted_down(&m1, &m2),
    ensures
        !row_has_element(&m2, 0),
        no_overlap(&s1, &m2),
        moving_consistent(&m2),
        static_consistent(&s1),
{
    lemma_settle_keeps_partnership(m0, s0, FIELD_HEIGHT - 1, settled, m1, s1);
    assert forall|c: int| 0 <= c < FIELD_WIDTH implies #[trigger] m1.tile(
        (FIELD_HEIGHT - 1, c),
    ) is None by {
        let p = (FIELD_HEIGHT - 1, c);
        if m0.tile(p) is Some {
            assert(is_supported(&s0, settled.to_set(), p));
            assert(settled.to_set().contains(p));
        }
    }
    lemma_tick_keeps_partnership(m1, m2);
    broadcast use MovingField::lemma_tile_outside;

    assert forall|p: (int, int)| #[trigger] m2.tile(p) is Some implies !s1.tile(
        p,
    ).spec_is_occupied() by {
        assert(in_field(p));
        assert(p.0 != 0);
        let p1 = (p.0 - 1, p.1);
        assert(m2.tile(p) == m1.tile(p1));
        assert(!settled.contains(p1));
        assert(m0.tile(p1) is Some);
        assert(!settled.to_set().contains(p1));
        assert(!is_supported(&s0, settled.to_set(), p1));
        assert(!settled.contains(p));
    }
}

/// Appending an element not yet present keeps a sequence free of duplicates.
proof fn lemma_push_unique(s: Seq<(int, int)>, x: (int, int))
    requires
        s.no_duplicates(),
        !s.contains(x),
    ensures
        s.push(x).no_duplicates(),
        s.push(x).to_set() == s.to_set().insert(x),
{
    broadcast use vstd::seq_lib::group_seq_properties;

    let t = s.push(x);
    assert forall|i: int, j: int| 0 <= i < t.len() && 0 <= j < t.len() && i != j implies t[i]
        != t[j] by {
        if i == s.len() {
            assert(s[j] == t[j]);
        } else if j == s.len() {
            assert(s[i] == t[i]);
        }
    }
    assert(t.to_set() =~= s.to_set().insert(x));
}

/// Determine the lowest row from the top to `lowest` holding moving elements
fn lowest_moving_row(moving_field: &MovingField, lowest: RowIndex) -> (r: Option<RowIndex>)
    ensures
        match r {
            Some(l) => {
                &&& l@ <= lowest@
                &&& row_has_element(moving_field, l@)
                &&& forall|row: int|
                    l@ < row <= lowest@ ==> !#[trigger] row_has_element(moving_field, row)
            },
            None => forall|row: int|
                0 <= row <= lowest@ ==> !#[trigger] row_has_element(moving_field, row),
        },
{
    let mut row: usize = lowest.index() + 1;
    while row > 0
        invariant
            row <= lowest@ + 1,
            lowest@ < FIELD_HEIGHT,
            forall|r: int| row <= r <= lowest@ ==> !#[trigger] row_has_element(moving_field, r),
        decreases row,
    {
        let r = row - 1;
        let mut c: usize = 0;
        while c < FIELD_WIDTH as usize
            invariant
                c <= FIELD_WIDTH,
                r < FIELD_HEIGHT,
                r + 1 == row,
                row <= lowest@ + 1,
                forall|rr: int| row <= rr <= lowest@ ==> !#[trigger] row_has_element(moving_field, rr),
                forall|j: int| 0 <= j < c ==> #[trigger] moving_field.tile((r as int, j)) is None,
            decreases FIELD_WIDTH - c,
        {
            if moving_field.get(position(r, c)).is_some() {
                assert(moving_field.tile((r as int, c as int)) is Some);
                assert(row_has_element(moving_field, r as int));
                let l = match RowIndex::try_from(r) {
                    Ok(l) => l,
                    Err(_) => RowIndex::top_row(),
                };
                return Some(l);
            }
            c = c + 1;
        }
        row = r;
    }
    None
}

} // verus!
