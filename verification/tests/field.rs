use dr_w_falls::field::items::row_of_four;
use dr_w_falls::field::{
    defeated, eliminate_elements, prepare_field, settle_elements, unsettle_elements, CapsuleElement,
    ControlledCapsule, Movement, MovingField, Row, RowOfFour, Settled, StaticField, TileContents,
    Virus,
};
use dr_w_falls::util::{
    columns, complete_row, position, rows, Colour, ColumnIndex, Direction, Position, RowIndex,
    FIELD_WIDTH,
};
use rand::SeedableRng;

fn row(r: usize) -> RowIndex {
    RowIndex::try_from(r).unwrap()
}

fn col(c: usize) -> ColumnIndex {
    ColumnIndex::try_from(c).unwrap()
}

fn capsule_at(field: &mut MovingField, pos: Position, colour: Colour, partner: Option<Direction>) {
    field.set(pos, Some(CapsuleElement::new(colour, partner)));
}

fn all_positions() -> Vec<Position> {
    rows().to_vec().into_iter().flat_map(complete_row).collect()
}

/// Elements in both fields refer to partners which refer back
fn partnership_consistent_moving(field: &MovingField) -> bool {
    all_positions().into_iter().all(|p| match field.get(p) {
        Some(e) => match e.partner() {
            Some(d) => dr_w_falls::util::neighbour(p, d)
                .and_then(|q| field.get(q))
                .and_then(|o| o.partner())
                .map(|back| back == d.rotated_cw().rotated_cw())
                .unwrap_or(false),
            None => true,
        },
        None => true,
    })
}

fn partnership_consistent_static(field: &StaticField) -> bool {
    all_positions().into_iter().all(|p| match field.get(p).as_element() {
        Some(e) => match e.partner() {
            Some(d) => dr_w_falls::util::neighbour(p, d)
                .map(|q| field.get(q))
                .and_then(|t| t.as_element().and_then(|o| o.partner()))
                .map(|back| back == d.rotated_cw().rotated_cw())
                .unwrap_or(false),
            None => true,
        },
        None => true,
    })
}

fn no_overlap(s: &StaticField, m: &MovingField) -> bool {
    all_positions().into_iter().all(|p| !(s.get(p).is_occupied() && m.get(p).is_some()))
}

#[test]
fn static_field_set_and_take() {
    let mut field = StaticField::new();
    let pos = position(4, 2);
    assert!(!field.get(pos).is_occupied());
    field.set(pos, TileContents::Virus(Virus::new(Colour::Blue)));
    assert!(field.get(pos).is_occupied());
    assert_eq!(field.get(pos).as_virus().map(|v| v.colour()), Some(Colour::Blue));
    let taken = field.take(pos);
    assert!(taken.is_occupied());
    assert!(!field.get(pos).is_occupied());
}

#[test]
fn static_field_from_viruses_later_entries_win() {
    let viruses = vec![(position(3, 3), Colour::Red), (position(3, 3), Colour::Yellow)];
    let field = StaticField::from_viruses(&viruses);
    assert_eq!(field.get(position(3, 3)).as_virus().map(|v| v.colour()), Some(Colour::Yellow));
    assert!(!field.get(position(3, 4)).is_occupied());
}

#[test]
fn defeated_only_with_top_row_occupied() {
    let mut field = StaticField::new();
    assert!(!defeated(&field));
    field.set(position(1, 0), TileContents::Virus(Virus::new(Colour::Red)));
    assert!(!defeated(&field));
    field.set(position(0, 7), TileContents::CapsuleElement(CapsuleElement::new_single(Colour::Red)));
    assert!(defeated(&field));
}

#[test]
fn tick_output() {
    let mut field = MovingField::new();
    capsule_at(&mut field, position(3, 2), Colour::Red, None);
    capsule_at(&mut field, position(15, 5), Colour::Blue, None);
    let updates = field.tick();
    for (p, c) in updates.iter() {
        assert_eq!(field.get(*p).map(|e| e.colour()), *c);
    }
    assert_eq!(field.get(position(4, 2)).map(|e| e.colour()), Some(Colour::Red));
    assert_eq!(field.get(position(0, 5)).map(|e| e.colour()), Some(Colour::Blue));
    assert!(updates.contains(&(position(3, 2), None)));
    assert!(updates.contains(&(position(4, 2), Some(Colour::Red))));
}

#[test]
fn moving_single_capsule() {
    let mut field = MovingField::new();
    field.tick();
    field.tick();
    let updates = field.spawn_single_capsules(vec![(col(6), Colour::Yellow)]);
    assert_eq!(updates, vec![(position(0, 6), Some(Colour::Yellow))]);
    for _ in 0..7 {
        field.tick();
    }
    assert_eq!(field.get(position(7, 6)), Some(CapsuleElement::new_single(Colour::Yellow)));
}

#[test]
fn moving_index() {
    let mut field = MovingField::new();
    field.tick();
    field.spawn_single_capsules(vec![(col(1), Colour::Blue)]);
    let index = field.moving_row_index(RowIndex::top_row());
    for _ in 0..5 {
        field.tick();
    }
    let r = field.row_index_from_moving(index);
    assert_eq!(r, row(5));
    assert_eq!(field.get((r, col(1))), Some(CapsuleElement::new_single(Colour::Blue)));
}

#[test]
fn settlement_on_the_bottom_and_on_viruses() {
    let mut moving = MovingField::new();
    let mut stat = StaticField::new();
    stat.set(position(10, 2), TileContents::Virus(Virus::new(Colour::Red)));
    capsule_at(&mut moving, position(9, 2), Colour::Blue, Some(Direction::Right));
    capsule_at(&mut moving, position(9, 3), Colour::Yellow, Some(Direction::Left));
    capsule_at(&mut moving, position(15, 6), Colour::Red, None);
    capsule_at(&mut moving, position(4, 0), Colour::Red, None);
    let (settled, lowest) = settle_elements(&mut moving, &mut stat, RowIndex::bottom_row());
    let positions = settled.positions();
    assert_eq!(positions.len(), 3);
    for p in [position(9, 2), position(9, 3), position(15, 6)] {
        assert!(positions.contains(&p));
        assert!(stat.get(p).is_occupied());
        assert!(moving.get(p).is_none());
    }
    assert_eq!(lowest, Some(row(4)));
    assert!(partnership_consistent_static(&stat));
    assert!(partnership_consistent_moving(&moving));
}

#[test]
fn settlement_tick() {
    let mut moving = MovingField::new();
    let mut stat = StaticField::new();
    capsule_at(&mut moving, position(15, 0), Colour::Red, Some(Direction::Above));
    capsule_at(&mut moving, position(14, 0), Colour::Blue, Some(Direction::Below));
    capsule_at(&mut moving, position(8, 4), Colour::Red, Some(Direction::Right));
    capsule_at(&mut moving, position(8, 5), Colour::Red, Some(Direction::Left));
    settle_elements(&mut moving, &mut stat, RowIndex::bottom_row());
    moving.tick();
    assert!(complete_row(RowIndex::top_row()).into_iter().all(|p| moving.get(p).is_none()));
    assert!(no_overlap(&stat, &moving));
    assert!(partnership_consistent_static(&stat));
    assert!(partnership_consistent_moving(&moving));
}

#[test]
fn settlement_lowest_unsettled_none() {
    let mut moving = MovingField::new();
    let mut stat = StaticField::new();
    let (settled, lowest) = settle_elements(&mut moving, &mut stat, RowIndex::bottom_row());
    assert!(settled.is_empty());
    assert_eq!(lowest, None);
}

#[test]
fn elimination_result() {
    let mut stat = StaticField::new();
    for c in 0..4 {
        stat.set(position(12, c), TileContents::Virus(Virus::new(Colour::Yellow)));
    }
    stat.set(position(11, 0), TileContents::CapsuleElement(CapsuleElement::new(Colour::Blue, Some(Direction::Below))));
    stat.set(position(12, 0), TileContents::CapsuleElement(CapsuleElement::new(Colour::Yellow, Some(Direction::Above))));
    let settled = Settled::new(vec![position(12, 0)]);
    let eliminated = eliminate_elements(&mut stat, &settled);
    assert_eq!(eliminated.row_count(), 1);
    let positions = eliminated.positions();
    assert_eq!(positions.len(), 4);
    for p in positions.iter() {
        assert!(!stat.get(*p).is_occupied());
    }
    let partner = stat.get(position(11, 0));
    assert_eq!(partner.as_element().map(|e| e.partner()), Some(None));
    assert!(partnership_consistent_static(&stat));
}

#[test]
fn elimination_without_row() {
    let mut stat = StaticField::new();
    stat.set(position(12, 0), TileContents::Virus(Virus::new(Colour::Yellow)));
    let eliminated = eliminate_elements(&mut stat, &Settled::new(vec![position(12, 0)]));
    assert_eq!(eliminated.row_count(), 0);
    assert!(stat.get(position(12, 0)).is_occupied());
}

#[test]
fn find_row_of_four_horizontal_and_vertical() {
    let mut stat = StaticField::new();
    for c in 2..7 {
        stat.set(position(5, c), TileContents::Virus(Virus::new(Colour::Red)));
    }
    let (colour, found) = row_of_four(&stat, position(5, 4)).unwrap();
    assert_eq!(colour, Colour::Red);
    assert_eq!(found.len(), 5);
    assert_eq!(found.positions(), (2..7).map(|c| position(5, c)).collect::<Vec<_>>());
    assert!(matches!(found, RowOfFour::Horizontal(..)));

    let mut stat = StaticField::new();
    for r in 8..12 {
        stat.set(position(r, 1), TileContents::Virus(Virus::new(Colour::Blue)));
    }
    let (colour, found) = row_of_four(&stat, position(11, 1)).unwrap();
    assert_eq!(colour, Colour::Blue);
    assert_eq!(found.len(), 4);
    assert!(matches!(found, RowOfFour::Vertical(..)));
}

#[test]
fn find_no_row_of_four() {
    let mut stat = StaticField::new();
    for c in 0..3 {
        stat.set(position(5, c), TileContents::Virus(Virus::new(Colour::Red)));
    }
    assert!(row_of_four(&stat, position(5, 1)).is_none());
    assert!(row_of_four(&stat, position(6, 1)).is_none());
}

#[test]
fn spawn_capsule_in_the_middle() {
    let mut moving = MovingField::new();
    let (capsule, updates) = ControlledCapsule::spawn_capsule(&mut moving, &[Colour::Red, Colour::Blue]);
    assert_eq!(updates, [(position(0, 3), Some(Colour::Red)), (position(0, 4), Some(Colour::Blue))]);
    assert_eq!(moving.get(position(0, 3)), Some(CapsuleElement::new(Colour::Red, Some(Direction::Right))));
    assert_eq!(moving.get(position(0, 4)), Some(CapsuleElement::new(Colour::Blue, Some(Direction::Left))));
    assert_eq!(moving.row_index_from_moving(capsule.row()), RowIndex::top_row());
}

#[test]
fn single_capsule_output() {
    for movement in [Movement::Left, Movement::Right, Movement::RotateCW, Movement::RotateCCW] {
        let mut moving = MovingField::new();
        let stat = StaticField::new();
        let (mut capsule, _) = ControlledCapsule::spawn_capsule(&mut moving, &[Colour::Red, Colour::Yellow]);
        for _ in 0..6 {
            moving.tick();
        }
        let updates = capsule.apply_move(&mut moving, &stat, movement).unwrap();
        let mut last: std::collections::HashMap<Position, Option<Colour>> = Default::default();
        for (p, c) in updates.iter() {
            last.insert(*p, *c);
        }
        for (p, c) in last {
            assert_eq!(moving.get(p).map(|e| e.colour()), c);
        }
        assert!(partnership_consistent_moving(&moving));
        assert_eq!(moving.row_index_from_moving(capsule.row()), row(6));
    }
}

#[test]
fn blocked_move_changes_nothing() {
    let mut moving = MovingField::new();
    let mut stat = StaticField::new();
    stat.set(position(0, 2), TileContents::Virus(Virus::new(Colour::Red)));
    let (mut capsule, _) = ControlledCapsule::spawn_capsule(&mut moving, &[Colour::Red, Colour::Yellow]);
    assert!(capsule.move_left(&mut moving, &stat).is_none());
    assert!(capsule.rotate_cw(&mut moving, &stat).is_none());
    assert_eq!(moving.get(position(0, 3)).map(|e| e.colour()), Some(Colour::Red));
    assert_eq!(moving.get(position(0, 4)).map(|e| e.colour()), Some(Colour::Yellow));
}

#[test]
fn moves_and_their_inverses() {
    let mut moving = MovingField::new();
    let stat = StaticField::new();
    let (mut capsule, _) = ControlledCapsule::spawn_capsule(&mut moving, &[Colour::Red, Colour::Yellow]);
    for _ in 0..5 {
        moving.tick();
    }
    let before: Vec<_> = all_positions().into_iter().map(|p| moving.get(p)).collect();
    capsule.move_left(&mut moving, &stat).unwrap();
    capsule.move_right(&mut moving, &stat).unwrap();
    let after: Vec<_> = all_positions().into_iter().map(|p| moving.get(p)).collect();
    assert_eq!(before, after);
    capsule.rotate_cw(&mut moving, &stat).unwrap();
    assert_eq!(moving.get(position(4, 4)).map(|e| e.partner()), Some(Some(Direction::Below)));
    assert_eq!(moving.get(position(5, 4)).map(|e| e.partner()), Some(Some(Direction::Above)));
    capsule.rotate_ccw(&mut moving, &stat).unwrap();
    let after: Vec<_> = all_positions().into_iter().map(|p| moving.get(p)).collect();
    assert_eq!(before, after);
}

#[test]
fn move_at_the_wall_fails() {
    let mut moving = MovingField::new();
    let stat = StaticField::new();
    let (mut capsule, _) = ControlledCapsule::spawn_capsule(&mut moving, &[Colour::Red, Colour::Yellow]);
    for _ in 0..3 {
        assert!(capsule.move_left(&mut moving, &stat).is_some());
    }
    assert!(capsule.move_left(&mut moving, &stat).is_none());
    assert_eq!(moving.get(position(0, 0)).map(|e| e.colour()), Some(Colour::Red));
}

#[test]
fn preparation_properties() {
    for seed in 0..20u64 {
        for (top, count) in [(4usize, 10u8), (4, 96), (10, 48), (15, 8), (0, 0)] {
            let mut rng = rand_pcg::Pcg64Mcg::seed_from_u64(seed);
            let viruses = prepare_field(&mut rng, row(top), count);
            assert!(viruses.len() <= count as usize);
            assert!(viruses.iter().all(|((r, _), _)| r.index() >= top));
            let mut positions: Vec<_> = viruses.iter().map(|(p, _)| *p).collect();
            positions.sort();
            positions.dedup();
            assert_eq!(positions.len(), viruses.len());
            let field = StaticField::from_viruses(&viruses);
            assert!(viruses.iter().all(|(p, _)| row_of_four(&field, *p).is_none()));
        }
    }
}

#[test]
fn preparation_fills_small_counts() {
    let mut rng = rand_pcg::Pcg64Mcg::seed_from_u64(7);
    let viruses = prepare_field(&mut rng, row(4), 10);
    assert_eq!(viruses.len(), 10);
}

#[test]
fn row_container() {
    let mut r: Row<Option<Colour>> = Row::new(None);
    assert_eq!(r.get(col(3)), None);
    r.set(col(3), Some(Colour::Blue));
    assert_eq!(r.get(col(3)), Some(Colour::Blue));
    assert_eq!(r.get(col(4)), None);
    assert_eq!(columns().len(), FIELD_WIDTH as usize);
}

fn element(colour: Colour, partner: Option<Direction>) -> TileContents {
    TileContents::CapsuleElement(CapsuleElement::new(colour, partner))
}

/// A row of four yellow elements in row 12 with a horizontal capsule and a
/// single element stacked on it, and an element resting on a virus.
fn field_with_stack() -> StaticField {
    let mut stat = StaticField::new();
    for c in 0..4 {
        stat.set(position(12, c), element(Colour::Yellow, None));
    }
    stat.set(position(11, 1), element(Colour::Red, Some(Direction::Right)));
    stat.set(position(11, 2), element(Colour::Blue, Some(Direction::Left)));
    stat.set(position(10, 1), element(Colour::Blue, None));
    stat.set(position(12, 5), TileContents::Virus(Virus::new(Colour::Red)));
    stat.set(position(11, 5), element(Colour::Red, None));
    stat
}

#[test]
fn unsettlement_after_elimination() {
    let mut stat = field_with_stack();
    let mut moving = MovingField::new();
    let eliminated = eliminate_elements(&mut stat, &Settled::new(vec![position(12, 0)]));
    assert_eq!(eliminated.row_count(), 1);
    let lowest = unsettle_elements(&mut moving, &mut stat, &eliminated);
    assert_eq!(lowest, Some(row(11)));
    for p in [position(11, 1), position(11, 2), position(10, 1)] {
        assert!(!stat.get(p).is_occupied());
        assert!(moving.get(p).is_some());
    }
    assert_eq!(moving.get(position(11, 1)), Some(CapsuleElement::new(Colour::Red, Some(Direction::Right))));
    assert!(stat.get(position(11, 5)).is_occupied());
    assert!(moving.get(position(11, 5)).is_none());
}

#[test]
fn unsettlement_consistency() {
    let mut stat = field_with_stack();
    let mut moving = MovingField::new();
    capsule_at(&mut moving, position(3, 6), Colour::Red, Some(Direction::Below));
    capsule_at(&mut moving, position(4, 6), Colour::Blue, Some(Direction::Above));
    let eliminated = eliminate_elements(&mut stat, &Settled::new(vec![position(12, 3)]));
    unsettle_elements(&mut moving, &mut stat, &eliminated);
    assert!(no_overlap(&stat, &moving));
    assert!(partnership_consistent_static(&stat));
    assert!(partnership_consistent_moving(&moving));
}

#[test]
fn unsettlement_occupation() {
    let mut stat = field_with_stack();
    let eliminated = eliminate_elements(&mut stat, &Settled::new(vec![position(12, 0)]));
    let mut moving = MovingField::new();
    capsule_at(&mut moving, position(2, 2), Colour::Red, None);
    let occupied = |s: &StaticField, m: &MovingField| -> Vec<Position> {
        all_positions().into_iter().filter(|p| s.get(*p).is_occupied() || m.get(*p).is_some()).collect()
    };
    let before = occupied(&stat, &moving);
    unsettle_elements(&mut moving, &mut stat, &eliminated);
    assert_eq!(occupied(&stat, &moving), before);
}

#[test]
fn unsettlement_without_elimination_changes_nothing() {
    let mut stat = field_with_stack();
    let mut moving = MovingField::new();
    let eliminated = eliminate_elements(&mut stat, &Settled::new(vec![position(11, 5)]));
    assert_eq!(eliminated.row_count(), 0);
    assert_eq!(unsettle_elements(&mut moving, &mut stat, &eliminated), None);
    assert!(all_positions().into_iter().all(|p| moving.get(p).is_none()));
    assert!(stat.get(position(10, 1)).is_occupied());
}

#[test]
fn unsettlement_tick() {
    let mut stat = field_with_stack();
    let mut moving = MovingField::new();
    stat.set(position(13, 0), TileContents::Virus(Virus::new(Colour::Red)));
    stat.take(position(12, 0));
    capsule_at(&mut moving, position(12, 0), Colour::Yellow, None);
    let (settled, _) = settle_elements(&mut moving, &mut stat, RowIndex::bottom_row());
    let eliminated = eliminate_elements(&mut stat, &settled);
    assert_eq!(eliminated.row_count(), 1);
    unsettle_elements(&mut moving, &mut stat, &eliminated);
    moving.tick();
    assert!(complete_row(RowIndex::top_row()).into_iter().all(|p| moving.get(p).is_none()));
    assert!(no_overlap(&stat, &moving));
    assert!(partnership_consistent_static(&stat));
    assert!(partnership_consistent_moving(&moving));
    assert_eq!(moving.get(position(12, 1)), Some(CapsuleElement::new(Colour::Red, Some(Direction::Right))));
}

#[test]
fn capsule_keeps_shape_over_moves_and_ticks() {
    let mut moving = MovingField::new();
    let mut stat = StaticField::new();
    stat.set(position(9, 0), TileContents::Virus(Virus::new(Colour::Blue)));
    let (mut capsule, _) = ControlledCapsule::spawn_capsule(&mut moving, &[Colour::Red, Colour::Yellow]);
    let moves = [Movement::RotateCW, Movement::Left, Movement::Left, Movement::RotateCCW, Movement::Left, Movement::Right];
    for movement in moves {
        moving.tick();
        let _ = capsule.apply_move(&mut moving, &stat, movement);
        assert!(partnership_consistent_moving(&moving));
        assert!(no_overlap(&stat, &moving));
        let lowest = all_positions()
            .into_iter()
            .filter(|p| moving.get(*p).is_some())
            .map(|p| p.0.index())
            .max()
            .unwrap();
        assert_eq!(moving.row_index_from_moving(capsule.row()).index(), lowest);
    }
}
