use battleship::{Ship, ShipError, Vec2};

#[test]
fn test() {
    let ships = Ship::get_new(vec![
        Vec2::default(),
        Vec2::new(1, 0),
        Vec2::new(0, 1),
        Vec2::new(-1, 0),
        Vec2::new(0, -1),
    ])
    .unwrap();
    let _ = ships;
}

#[test]
fn plus_shape_rotations_all_equivalent() {
    let rot = Ship::get_new(vec![
        Vec2::new(0, 0),
        Vec2::new(1, 0),
        Vec2::new(0, 1),
        Vec2::new(-1, 0),
        Vec2::new(0, -1),
    ])
    .unwrap();
    let all = [&rot.r0, &rot.r90, &rot.r180, &rot.r270];
    for a in all {
        for b in all {
            assert!(a.is_equivalent(b));
        }
    }
}

#[test]
fn lenient_new_anchors_and_dedups() {
    let ship = Ship::new(vec![Vec2::new(1, 0), Vec2::new(1, 0), Vec2::new(2, 0)]).unwrap();
    assert!(ship.shape.contains(&Vec2::new(0, 0)));
    assert_eq!(ship.shape, vec![Vec2::new(1, 0), Vec2::new(2, 0), Vec2::new(0, 0)]);
}

#[test]
fn strict_new_rejects_missing_anchor() {
    let err = Ship::new_strict(vec![Vec2::new(1, 0)]).unwrap_err();
    assert_eq!(err, ShipError::NoRootVec);
    let ok = Ship::new_strict(vec![Vec2::new(0, 0), Vec2::new(1, 0)]).unwrap();
    assert_eq!(ok.shape, vec![Vec2::new(0, 0), Vec2::new(1, 0)]);
}

#[test]
fn ship_turns_rotate_every_offset() {
    let ship = Ship::new(vec![Vec2::new(0, 0), Vec2::new(1, 0)]).unwrap();
    let cw = ship.turn_clock();
    assert_eq!(cw.shape, vec![Vec2::new(0, 0), Vec2::new(0, -1)]);
    let ccw = ship.turn_counter();
    assert_eq!(ccw.shape, vec![Vec2::new(0, 0), Vec2::new(0, 1)]);

    let mut m = ship.clone();
    m.turn_clock_mut();
    assert_eq!(m.shape, cw.shape);
    m.turn_counter_mut();
    assert_eq!(m.shape, ship.shape);
}

#[test]
fn equivalence_is_order_blind_set_equality() {
    let a = Ship::new(vec![Vec2::new(0, 0), Vec2::new(1, 0)]).unwrap();
    let b = Ship::new(vec![Vec2::new(1, 0), Vec2::new(0, 0)]).unwrap();
    let c = Ship::new(vec![Vec2::new(0, 0), Vec2::new(0, 1)]).unwrap();
    assert!(a.is_equivalent(&b));
    assert!(b.is_equivalent(&a));
    assert!(!a.is_equivalent(&c));
}
