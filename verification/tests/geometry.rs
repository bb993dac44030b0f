use battleship::{Pos2, Vec2};

#[test]
fn add_vec2s() {
    let vec1 = Vec2 { x: 2, y: 3 };
    let vec2 = Vec2 { x: 3, y: 2 };

    let vec3 = vec1 + vec2;
    assert_eq!(vec3, Vec2 { x: 5, y: 5 });
}

#[test]
fn sub_vec2s() {
    let vec1 = Vec2 { x: 5, y: 3 };
    let vec2 = Vec2 { x: 3, y: 1 };

    let vec3 = vec1 - vec2;
    assert_eq!(vec3, Vec2 { x: 2, y: 2 });
}

#[test]
fn mul_vec2s() {
    let vec1 = Vec2 { x: 5, y: 3 };
    let vec2 = Vec2 { x: 3, y: 1 };

    let mul = vec1 * vec2;
    let dot = vec1.dot_prod(&vec2);
    assert_eq!(mul, dot);
}

#[test]
fn dot_vec2s() {
    let vec1 = Vec2 { x: 5, y: 3 };
    let vec2 = Vec2 { x: 3, y: 1 };

    let dot = vec1.dot_prod(&vec2);
    assert_eq!(dot, 18);
}

#[test]
fn structs_add_vec2s() {
    let vec1 = Vec2 { x: 2, y: 3 };
    let vec2 = Vec2 { x: 3, y: 2 };

    let vec3 = vec1 + vec2;
    assert_eq!(vec3, Vec2 { x: 5, y: 5 });
}

#[test]
fn structs_sub_vec2s() {
    let vec1 = Vec2 { x: 5, y: 3 };
    let vec2 = Vec2 { x: 3, y: 1 };

    let vec3 = vec1 - vec2;
    assert_eq!(vec3, Vec2 { x: 2, y: 2 });
}

#[test]
fn structs_mul_vec2s() {
    let vec1 = Vec2 { x: 5, y: 3 };
    let vec2 = Vec2 { x: 3, y: 1 };

    let mul = vec1 * vec2;
    let dot = vec1.dot_prod(&vec2);
    assert_eq!(mul, dot);
}

#[test]
fn structs_dot_vec2s() {
    let vec1 = Vec2 { x: 5, y: 3 };
    let vec2 = Vec2 { x: 3, y: 1 };

    let dot = vec1.dot_prod(&vec2);
    assert_eq!(dot, 18);
}

#[test]
fn neg_dist() {
    let pos1 = Pos2::new(3, 2);
    let pos2 = Pos2::new(1, 1);
    assert_eq!(Vec2::new(-2, -1), pos1.distance(&pos2))
}

#[test]
fn turn_clock() {
    let vec = Vec2::new(2, 1);
    assert_eq!(Vec2::new(1, -2), vec.turn_clock());
    assert_eq!(Vec2::new(-2, -1), vec.turn_clock().turn_clock());
    assert_eq!(Vec2::new(-1, 2), vec.turn_clock().turn_clock().turn_clock());
}

#[test]
fn turn_counter_clock() {
    let vec = Vec2::new(2, 1);
    assert_eq!(Vec2::new(-1, 2), vec.turn_counter());
    assert_eq!(Vec2::new(-2, -1), vec.turn_counter().turn_counter());
    assert_eq!(
        Vec2::new(1, -2),
        vec.turn_counter().turn_counter().turn_counter()
    );
}

#[test]
fn add_is_commutative() {
    let a = Vec2::new(-4, 7);
    let b = Vec2::new(9, -2);
    assert_eq!(a + b, b + a);
}

#[test]
fn sub_undoes_add() {
    let a = Vec2::new(-4, 7);
    let b = Vec2::new(9, -2);
    assert_eq!((a + b) - b, a);
}

#[test]
fn four_turns_return_exactly() {
    let v = Vec2::new(3, -5);
    assert_eq!(v, v.turn_clock().turn_clock().turn_clock().turn_clock());
    assert_eq!(
        v,
        v.turn_counter().turn_counter().turn_counter().turn_counter()
    );
    assert_eq!(v, v.turn_counter().turn_clock());
    assert_eq!(v, v.turn_clock().turn_counter());
}

#[test]
fn offset_moves_and_rejects_negative() {
    let p = Pos2::new(2, 1);
    assert_eq!(p.offset(Vec2::new(-2, -1)), Ok(Pos2::new(0, 0)));
    assert_eq!(p.offset(Vec2::new(3, 4)), Ok(Pos2::new(5, 5)));
    let e = Pos2::new(0, 0).offset(Vec2::new(-1, 0)).unwrap_err();
    assert_eq!(e.pos, Pos2::new(0, 0));
    assert_eq!(e.offset, Vec2::new(-1, 0));
}

#[test]
fn offset_inverts_distance() {
    let from = Pos2::new(3, 2);
    let to = Pos2::new(1, 5);
    assert_eq!(from.offset(from.distance(&to)), Ok(to));
}

#[test]
fn normal_keeps_axis_directions() {
    assert_eq!(Vec2::new(0, 5).normal(), Vec2::new(0, 1));
    assert_eq!(Vec2::new(-3, 0).normal(), Vec2::new(-1, 0));
    assert_eq!(Vec2::new(0, 0).normal(), Vec2::new(0, 0));
    // integer length of (2, 1) is floor(sqrt(5)) == 2
    assert_eq!(Vec2::new(2, 1).normal(), Vec2::new(1, 0));
}

#[test]
fn area_of_rectangle() {
    assert_eq!(Vec2::new(2, 3).area_rect(), 6);
    assert_eq!(Vec2::new(-2, 3).area_rect(), -6);
}

#[test]
fn vector_from_position() {
    assert_eq!(Vec2::from(Pos2::new(1, 2)), Vec2::new(1, 2));
}
