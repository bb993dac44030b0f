use battleship::{Board, BoardBuilder, BoardErrors, Pos2, Ship, Vec2};

#[test]
fn structs_test() {
    assert!(true)
}

#[test]
fn grid_of_single_ship() {
    let ship = Ship::new(vec![Vec2::new(0, 0), Vec2::new(1, 0)]).unwrap();
    let board = Board::new(
        vec![(Pos2::new(0, 0), ship)],
        vec![Pos2::new(0, 0), Pos2::new(1, 0)],
        vec![],
    )
    .unwrap();
    assert_eq!(board.get_grid().unwrap(), vec![Pos2::new(0, 0), Pos2::new(1, 0)]);
}

#[test]
fn grid_rejects_offsets_leaving_the_grid() {
    let ship = Ship::new(vec![Vec2::new(0, 0), Vec2::new(-1, 0)]).unwrap();
    let board = Board::new(vec![(Pos2::new(0, 0), ship)], vec![Pos2::new(0, 0)], vec![]).unwrap();
    let e = board.get_grid().unwrap_err();
    assert_eq!(e.pos, Pos2::new(0, 0));
    assert_eq!(e.offset, Vec2::new(-1, 0));
}

#[test]
fn size_is_componentwise_maximum() {
    let board = Board::new(
        vec![],
        vec![Pos2::new(0, 1), Pos2::new(2, 0), Pos2::new(1, 1)],
        vec![],
    )
    .unwrap();
    assert_eq!(board.size(), Vec2::new(2, 1));
    let empty = Board::new(vec![], vec![], vec![]).unwrap();
    assert_eq!(empty.size(), Vec2::new(0, 0));
}

#[test]
fn completion_counts_hits_over_cells() {
    // two occupied cells, one matching shot: the ratio meant is 1 / 2
    let ship = Ship::new(vec![Vec2::new(0, 0), Vec2::new(1, 0)]).unwrap();
    let board = Board::new(
        vec![(Pos2::new(0, 0), ship)],
        vec![Pos2::new(0, 0), Pos2::new(1, 0)],
        vec![Pos2::new(0, 0), Pos2::new(0, 0), Pos2::new(5, 5)],
    )
    .unwrap();
    let c = board.get_completion().unwrap();
    assert_eq!(c.hits, 1);
    assert_eq!(c.cells, 2);
}

#[test]
fn completion_of_empty_board_is_zero_of_zero() {
    let board = Board::new(vec![], vec![Pos2::new(0, 0)], vec![Pos2::new(0, 0)]).unwrap();
    let c = board.get_completion().unwrap();
    assert_eq!(c.hits, 0);
    assert_eq!(c.cells, 0);
}

#[test]
fn builder_accessors_roundtrip() {
    let mut b = BoardBuilder::new(vec![], vec![], 0);
    let ship = Ship::new(vec![Vec2::new(0, 0)]).unwrap();
    b.add_ship(ship.clone());
    b.set_shape(vec![Pos2::new(0, 0)]);
    b.set_whitespace(3);
    assert_eq!(b.ships().len(), 1);
    assert_eq!(b.shape(), &[Pos2::new(0, 0)][..]);
    assert_eq!(b.whitespace(), 3);
    b.ships_mut().clear();
    b.shape_mut().push(Pos2::new(1, 0));
    *b.whitespace_mut() = 1;
    assert_eq!(b.ships().len(), 0);
    assert_eq!(b.shape().len(), 2);
    assert_eq!(b.whitespace(), 1);
    b.set_ships(vec![ship]);
    assert_eq!(b.ships().len(), 1);
}

#[test]
fn build_enumerates_both_placements() {
    let ship = Ship::new(vec![Vec2::new(0, 0), Vec2::new(1, 0)]).unwrap();
    let mut b = BoardBuilder::new(vec![ship], vec![Pos2::new(0, 0), Pos2::new(1, 0)], 0);
    let boards = b.build().unwrap();
    // the two-cell ship fits the two-cell row exactly twice: unrotated at
    // the left cell, and turned 180 degrees at the right cell
    assert_eq!(boards.len(), 2);
    for board in &boards {
        let mut grid = board.get_grid().unwrap();
        grid.sort();
        assert_eq!(grid, vec![Pos2::new(0, 0), Pos2::new(1, 0)]);
        assert!(board.shots.is_empty());
    }
}

#[test]
fn build_separates_ships_by_whitespace() {
    let ship_a = Ship::new(vec![Vec2::new(0, 0)]).unwrap();
    let ship_b = Ship::new(vec![Vec2::new(0, 0)]).unwrap();
    let row: Vec<Pos2> = (0..4).map(|x| Pos2::new(x, 0)).collect();
    let mut adjacent_ok = BoardBuilder::new(vec![ship_a.clone(), ship_b.clone()], row.clone(), 0);
    assert!(adjacent_ok.build().unwrap().len() > 0);
    let mut spaced = BoardBuilder::new(vec![ship_a, ship_b], row, 2);
    let boards = spaced.build().unwrap();
    // with whitespace 2 only the two outermost cells can host the ships
    assert_eq!(boards.len(), 2);
}

#[test]
fn build_reports_unplaceable_ship() {
    let big = Ship::new(vec![Vec2::new(0, 0), Vec2::new(1, 0), Vec2::new(2, 0)]).unwrap();
    let mut b = BoardBuilder::new(vec![big], vec![Pos2::new(0, 0)], 0);
    let errs = b.build().unwrap_err();
    assert_eq!(errs, vec![BoardErrors::NoPlacement { ship: 0 }]);
}
