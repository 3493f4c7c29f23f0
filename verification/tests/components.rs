use snake_planner::components::{Dir, Pos};

#[test]
fn pos_in_direction() {
    let pos = Pos::new(3, 3);
    let right = Pos::new(4, 3);
    let left = Pos::new(2, 3);
    let up = Pos::new(3, 4);
    let down = Pos::new(3, 2);
    assert_eq!(pos.in_direction(Dir::Left), left);
    assert_eq!(pos.in_direction(Dir::Right), right);
    assert_eq!(pos.in_direction(Dir::Up), up);
    assert_eq!(pos.in_direction(Dir::Down), down);
}

#[test]
fn direction_opposite() {
    assert_eq!(Dir::Left.opposite(), Dir::Right);
    assert_eq!(Dir::Right.opposite(), Dir::Left);
    assert_eq!(Dir::Up.opposite(), Dir::Down);
    assert_eq!(Dir::Down.opposite(), Dir::Up);
}

#[test]
fn pos_in_bounds() {
    assert!(Pos::new(0, 0).in_bounds());
    assert!(Pos::new(19, 19).in_bounds());
    assert!(!Pos::new(-1, 0).in_bounds());
    assert!(!Pos::new(0, -1).in_bounds());
    assert!(!Pos::new(20, 0).in_bounds());
    assert!(!Pos::new(0, 20).in_bounds());
}
