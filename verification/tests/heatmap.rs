use battleship::{Board, HeatMap, HeatMapErrors, Pos2, Ship, Vec2};

fn one_cell_ship() -> Ship {
    Ship::new(vec![Vec2::new(0, 0)]).unwrap()
}

#[test]
fn empty_population_yields_empty_map() {
    let map = HeatMap::new(&vec![]).unwrap();
    assert_eq!(map.size(), 0);
    assert_eq!(map.total, 0);
}

#[test]
fn counts_occupancy_per_cell() {
    let shape = vec![Pos2::new(0, 0), Pos2::new(1, 0)];
    let b1 = Board::new(vec![(Pos2::new(0, 0), one_cell_ship())], shape.clone(), vec![]).unwrap();
    let b2 = Board::new(vec![(Pos2::new(1, 0), one_cell_ship())], shape.clone(), vec![]).unwrap();
    let b3 = Board::new(vec![(Pos2::new(0, 0), one_cell_ship())], shape, vec![]).unwrap();
    let map = HeatMap::new(&vec![b1, b2, b3]).unwrap();
    assert_eq!(map.total, 3);
    assert_eq!(map.size(), 2);
    assert_eq!(map.get(Pos2::new(0, 0)), Some(2));
    assert_eq!(map.get(Pos2::new(1, 0)), Some(1));
    assert_eq!(map.get(Pos2::new(5, 5)), None);
}

#[test]
fn rejects_inconsistent_shapes() {
    let b1 = Board::new(vec![], vec![Pos2::new(0, 0)], vec![]).unwrap();
    let b2 = Board::new(vec![], vec![Pos2::new(1, 0)], vec![]).unwrap();
    let err = HeatMap::new(&vec![b1, b2]).unwrap_err();
    assert_eq!(err, HeatMapErrors::InconsistentShapes);
}

#[test]
fn rejects_boards_leaving_the_grid() {
    let bad_ship = Ship::new(vec![Vec2::new(0, 0), Vec2::new(-1, 0)]).unwrap();
    let b = Board::new(vec![(Pos2::new(0, 0), bad_ship)], vec![Pos2::new(0, 0)], vec![]).unwrap();
    let err = HeatMap::new(&vec![b]).unwrap_err();
    assert_eq!(err, HeatMapErrors::OutOfBounds);
}

#[test]
fn scores_do_not_depend_on_board_order() {
    let shape = vec![Pos2::new(0, 0), Pos2::new(1, 0)];
    let b1 = Board::new(vec![(Pos2::new(0, 0), one_cell_ship())], shape.clone(), vec![]).unwrap();
    let b2 = Board::new(vec![(Pos2::new(1, 0), one_cell_ship())], shape, vec![]).unwrap();
    let forward = HeatMap::new(&vec![b1.clone(), b2.clone()]).unwrap();
    let backward = HeatMap::new(&vec![b2, b1]).unwrap();
    assert_eq!(forward.get(Pos2::new(0, 0)), backward.get(Pos2::new(0, 0)));
    assert_eq!(forward.get(Pos2::new(1, 0)), backward.get(Pos2::new(1, 0)));
}
