use dr_w_falls::util::{
    columns, complete_row, neighbour, position, rows, Colour, ColumnIndex, Direction,
    RangeInclusive, RowIndex, Step, FIELD_HEIGHT, FIELD_WIDTH,
};

fn backward_count<I: Step>(mut range: RangeInclusive<I>) -> usize {
    let mut count = 0;
    while range.next_back().is_some() {
        count += 1;
    }
    count
}

#[test]
fn rows_len() {
    assert_eq!(rows().len(), FIELD_HEIGHT as usize);
    assert_eq!(rows().count(), FIELD_HEIGHT as usize);
    assert_eq!(backward_count(rows()), FIELD_HEIGHT as usize);
}

#[test]
fn columns_len() {
    assert_eq!(columns().len(), FIELD_WIDTH as usize);
    assert_eq!(columns().count(), FIELD_WIDTH as usize);
    assert_eq!(backward_count(columns()), FIELD_WIDTH as usize);
}

#[test]
fn rows_forward_and_backward() {
    let first = RowIndex::try_from(3).unwrap();
    let last = RowIndex::try_from(9).unwrap();
    let steps = RowIndex::steps_between(&first, &last).unwrap();
    assert_eq!(steps, 6);
    let mut range = RangeInclusive::new(first, last);
    assert_eq!(range.next(), Some(first));
    let mut back = RangeInclusive::new(first, last);
    assert_eq!(back.next_back(), Some(last));
    let all = RangeInclusive::new(first, last).to_vec();
    assert_eq!(all.len(), steps + 1);
    assert_eq!(all[steps], last);
}

#[test]
fn empty_range_when_first_after_last() {
    let first = RowIndex::try_from(9).unwrap();
    let last = RowIndex::try_from(3).unwrap();
    let mut range = RangeInclusive::new(first, last);
    assert_eq!(range.len(), 0);
    assert_eq!(range.next(), None);
    assert_eq!(range.next_back(), None);
}

#[test]
fn single_element_range() {
    let row = RowIndex::try_from(5).unwrap();
    let mut range = RangeInclusive::new(row, row);
    assert_eq!(range.len(), 1);
    assert_eq!(range.next_back(), Some(row));
    assert_eq!(range.next(), None);
}

#[test]
fn index_bounds() {
    assert!(RowIndex::try_from(15).is_ok());
    assert_eq!(RowIndex::try_from(16), Err(16));
    assert!(ColumnIndex::try_from(7).is_ok());
    assert_eq!(ColumnIndex::try_from(8), Err(8));
    assert_eq!(RowIndex::top_row().index(), 0);
    assert_eq!(RowIndex::bottom_row().index(), 15);
    assert_eq!(ColumnIndex::leftmost_column().index(), 0);
    assert_eq!(ColumnIndex::rightmost_column().index(), 7);
}

#[test]
fn rotation_identity() {
    for dir in [Direction::Left, Direction::Right, Direction::Above, Direction::Below] {
        assert_eq!(dir.rotated_cw().rotated_ccw(), dir);
    }
}

#[test]
fn cw_rotation() {
    for dir in [Direction::Left, Direction::Right, Direction::Above, Direction::Below] {
        let d1 = dir.rotated_cw();
        let d2 = d1.rotated_cw();
        let d3 = d2.rotated_cw();
        let d4 = d3.rotated_cw();
        assert!(d1 != dir && d2 != dir && d3 != dir && d4 == dir);
    }
    assert_eq!(Direction::Left.rotated_cw(), Direction::Above);
}

#[test]
fn ccw_rotation() {
    for dir in [Direction::Left, Direction::Right, Direction::Above, Direction::Below] {
        let d1 = dir.rotated_ccw();
        let d2 = d1.rotated_ccw();
        let d3 = d2.rotated_ccw();
        let d4 = d3.rotated_ccw();
        assert!(d1 != dir && d2 != dir && d3 != dir && d4 == dir);
    }
    assert_eq!(Direction::Left.rotated_ccw(), Direction::Below);
}

#[test]
fn position_identity() {
    let pos = position(5, 5);
    for dir in [Direction::Left, Direction::Right, Direction::Above, Direction::Below] {
        let there = neighbour(pos, dir).unwrap();
        let back = neighbour(there, dir.rotated_cw().rotated_cw()).unwrap();
        assert_eq!(back, pos);
    }
}

#[test]
fn neighbour_outside_field() {
    assert_eq!(neighbour(position(0, 0), Direction::Above), None);
    assert_eq!(neighbour(position(0, 0), Direction::Left), None);
    assert_eq!(neighbour(position(15, 7), Direction::Below), None);
    assert_eq!(neighbour(position(15, 7), Direction::Right), None);
    assert_eq!(neighbour(position(3, 4), Direction::Below), Some(position(4, 4)));
}

#[test]
fn colour_rotation() {
    for colour in [Colour::Red, Colour::Yellow, Colour::Blue] {
        for dir in [true, false] {
            let c1 = colour.rotate(dir);
            let c2 = c1.rotate(dir);
            let c3 = c2.rotate(dir);
            assert!(c1 != colour && c2 != colour && c3 == colour);
        }
    }
}

#[test]
fn colour_dirot() {
    for colour in [Colour::Red, Colour::Yellow, Colour::Blue] {
        let c1 = colour.rotate(true);
        let c2 = colour.rotate(false);
        assert!(colour != c1 && colour != c2 && c1 != c2);
    }
    assert_eq!(Colour::Red.rotate(false), Colour::Yellow);
}

#[test]
fn colour_from_number() {
    assert_eq!(Colour::from_number(0), Colour::Red);
    assert_eq!(Colour::from_number(1), Colour::Yellow);
    assert_eq!(Colour::from_number(2), Colour::Blue);
}

#[test]
fn complete_row_covers_columns() {
    let row = RowIndex::try_from(2).unwrap();
    let positions = complete_row(row);
    assert_eq!(positions.len(), FIELD_WIDTH as usize);
    for (i, p) in positions.iter().enumerate() {
        assert_eq!(*p, position(2, i));
    }
}
