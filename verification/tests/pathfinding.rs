use snake_planner::components::{Dir, Pos};
use snake_planner::pathfinding::find_path;

/// Applies one move to a position.
fn step(p: Pos, d: Dir) -> Pos {
    match d {
        Dir::Left => Pos::new(p.x - 1, p.y),
        Dir::Right => Pos::new(p.x + 1, p.y),
        Dir::Up => Pos::new(p.x, p.y + 1),
        Dir::Down => Pos::new(p.x, p.y - 1),
    }
}

/// Breadth-first-search oracle: the true shortest free-walk distance from
/// `body[0]` to `food`, or None when the target is unreachable or the head.
fn bfs_distance(body: &[Pos], food: Pos) -> Option<usize> {
    let head = body[0];
    if food == head {
        return None;
    }
    let idx = |p: Pos| (p.y as usize) * 20 + (p.x as usize);
    let mut blocked = [false; 400];
    for &p in body {
        blocked[idx(p)] = true;
    }
    // The target is passable even when it lies on the body: the target wins.
    blocked[idx(food)] = false;
    let mut dist = [usize::MAX; 400];
    let mut queue = std::collections::VecDeque::new();
    dist[idx(head)] = 0;
    queue.push_back(head);
    while let Some(p) = queue.pop_front() {
        for d in [Dir::Left, Dir::Right, Dir::Up, Dir::Down] {
            let q = step(p, d);
            if !q.in_bounds() {
                continue;
            }
            if q == food {
                return Some(dist[idx(p)] + 1);
            }
            if blocked[idx(q)] || dist[idx(q)] != usize::MAX {
                continue;
            }
            dist[idx(q)] = dist[idx(p)] + 1;
            queue.push_back(q);
        }
    }
    None
}

/// Checks that `path` walked from `body[0]` stays on the board, avoids the
/// body before its end, and ends on `food`.
fn assert_valid_walk(body: &[Pos], food: Pos, path: &[Dir]) {
    let mut p = body[0];
    for (i, &d) in path.iter().enumerate() {
        p = step(p, d);
        assert!(p.in_bounds());
        if i + 1 < path.len() {
            assert!(!body.contains(&p));
        }
    }
    assert_eq!(p, food);
}

#[test]
fn straight_path_right() {
    let head = Pos::new(3, 3);
    let food = Pos::new(6, 3);
    let path = find_path(vec![head], food);
    let expected = vec![Dir::Right, Dir::Right, Dir::Right];
    assert_eq!(path, expected);
}

#[test]
fn straight_path_left() {
    let head = Pos::new(3, 0);
    let food = Pos::new(0, 0);
    let path = find_path(vec![head], food);
    let expected = vec![Dir::Left, Dir::Left, Dir::Left];
    assert_eq!(path, expected);
}

#[test]
fn straight_path_up() {
    let head = Pos::new(0, 0);
    let food = Pos::new(0, 3);
    let path = find_path(vec![head], food);
    let expected = vec![Dir::Up, Dir::Up, Dir::Up];
    assert_eq!(path, expected);
}

#[test]
fn straight_path_down() {
    let head = Pos::new(0, 3);
    let food = Pos::new(0, 0);
    let path = find_path(vec![head], food);
    let expected = vec![Dir::Down, Dir::Down, Dir::Down];
    assert_eq!(path, expected);
}

#[test]
fn path_across_board() {
    let head = Pos::new(0, 0);
    let food = Pos::new(19, 19);
    let path = find_path(vec![head], food);
    // Count the number of Dir::Right's
    let right_count = path.iter().filter(|&&d| d == Dir::Right).count();
    let up_count = path.iter().filter(|&&d| d == Dir::Up).count();
    assert_eq!(right_count, 19);
    assert_eq!(up_count, 19);
}

#[test]
fn first_move_through_sole_opening() {
    // Every cell next to the head is body except the one to the Right.
    let head = Pos::new(5, 5);
    let body = vec![head, Pos::new(4, 5), Pos::new(5, 6), Pos::new(5, 4)];
    let food = Pos::new(9, 5);
    let path = find_path(body.clone(), food);
    assert!(!path.is_empty());
    assert_eq!(path[0], Dir::Right);
    assert_valid_walk(&body, food, &path);
}

#[test]
fn enclosed_head_is_unreachable() {
    // The body surrounds the head on all four sides.
    let head = Pos::new(5, 5);
    let body = vec![
        head,
        Pos::new(4, 5),
        Pos::new(6, 5),
        Pos::new(5, 6),
        Pos::new(5, 4),
    ];
    let food = Pos::new(12, 12);
    let path = find_path(body, food);
    assert!(path.is_empty());
}

#[test]
fn corner_enclosure_is_unreachable() {
    // The head sits in a corner behind its own body.
    let head = Pos::new(0, 0);
    let body = vec![head, Pos::new(1, 0), Pos::new(1, 1), Pos::new(0, 1)];
    let food = Pos::new(19, 19);
    let path = find_path(body, food);
    assert!(path.is_empty());
}

#[test]
fn target_on_head_returns_empty() {
    let head = Pos::new(7, 7);
    let path = find_path(vec![head], head);
    assert!(path.is_empty());
}

#[test]
fn target_on_body_cell_is_still_reached() {
    // The target coincides with a body cell; the target marking wins.
    let head = Pos::new(0, 0);
    let tail = Pos::new(1, 0);
    let path = find_path(vec![head, tail], tail);
    assert_eq!(path, vec![Dir::Right]);
}

#[test]
fn identical_inputs_identical_outputs() {
    let body = vec![
        Pos::new(10, 15),
        Pos::new(9, 15),
        Pos::new(8, 15),
        Pos::new(7, 15),
    ];
    let food = Pos::new(3, 2);
    let first = find_path(body.clone(), food);
    let second = find_path(body, food);
    assert_eq!(first, second);
}

#[test]
fn path_around_obstacle_is_valid_and_minimal() {
    // A vertical wall of body cells forces a detour.
    let head = Pos::new(2, 5);
    let mut body = vec![head];
    for y in 0..11 {
        body.push(Pos::new(4, y));
    }
    let food = Pos::new(6, 5);
    let path = find_path(body.clone(), food);
    assert!(!path.is_empty());
    assert_valid_walk(&body, food, &path);
    assert_eq!(Some(path.len()), bfs_distance(&body, food));
}

#[test]
fn lengths_match_bfs_oracle_on_random_boards() {
    // A reproducible linear-congruential generator stands in for real
    // randomness so the oracle comparison is deterministic.
    let mut state: u64 = 0x2545F4914F6CDD1D;
    let mut next = move || {
        state = state.wrapping_mul(6364136223846793005).wrapping_add(1442695040888963407);
        (state >> 33) as usize
    };
    for _ in 0..40 {
        let head = Pos::new((next() % 20) as i32, (next() % 20) as i32);
        let mut body = vec![head];
        let segments = next() % 60;
        for _ in 0..segments {
            let p = Pos::new((next() % 20) as i32, (next() % 20) as i32);
            if p != head {
                body.push(p);
            }
        }
        let food = Pos::new((next() % 20) as i32, (next() % 20) as i32);
        let path = find_path(body.clone(), food);
        match bfs_distance(&body, food) {
            Some(dist) => {
                assert_eq!(path.len(), dist);
                assert_valid_walk(&body, food, &path);
            }
            None => {
                assert!(path.is_empty());
            }
        }
    }
}
