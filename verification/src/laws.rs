use vstd::prelude::*;

use crate::components::{Dir, Pos};
use crate::paths::{
    count_dir, lemma_count_bounds, lemma_count_full, lemma_count_total, lemma_manhattan_lower,
    lemma_pos_at_full, lemma_pos_at_succ, lemma_pos_at_zero, lemma_walk_append,
    lemma_walk_displacement, lemma_walk_push, manhattan, path_ok, pos_at, walk_from,
};

verus! {

/// The cell `k` unit moves from `start`, all in direction `d`.
pub open spec fn offset_in(start: Pos, d: Dir, k: int) -> Pos {
    match d {
        Dir::Left => Pos { x: (start.x - k) as i32, y: start.y },
        Dir::Right => Pos { x: (start.x + k) as i32, y: start.y },
        Dir::Up => Pos { x: start.x, y: (start.y + k) as i32 },
        Dir::Down => Pos { x: start.x, y: (start.y - k) as i32 },
    }
}

/// `k` repetitions of the single direction `d`.
pub open spec fn repeat_dir(d: Dir, k: int) -> Seq<Dir> {
    Seq::new(k as nat, |i: int| d)
}

/// Walking `k` times in one direction passes exactly through the cells
/// offset 0 to `k` from the start, as long as start and end are on the board.
pub proof fn lemma_repeat_positions(start: Pos, d: Dir, k: int)
    requires
        0 <= k <= 19,
        start.spec_in_bounds(),
        offset_in(start, d, k).spec_in_bounds(),
    ensures
        forall|i: int| 0 <= i <= k ==> #[trigger] pos_at(start, repeat_dir(d, k), i) == offset_in(
            start,
            d,
            i,
        ),
        forall|i: int| 0 <= i <= k ==> (#[trigger] offset_in(start, d, i)).spec_in_bounds(),
    decreases k,
{
    assert forall|i: int| 0 <= i <= k implies (#[trigger] offset_in(start, d, i)).spec_in_bounds()
        by {}
    if k == 0 {
        lemma_pos_at_zero(start, repeat_dir(d, 0));
    } else {
        lemma_repeat_positions(start, d, k - 1);
        assert forall|i: int| 0 <= i <= k implies #[trigger] pos_at(start, repeat_dir(d, k), i)
            == offset_in(start, d, i) by {
            if i < k {
                assert(repeat_dir(d, k).take(i) =~= repeat_dir(d, k - 1).take(i));
                assert(pos_at(start, repeat_dir(d, k - 1), i) == offset_in(start, d, i));
            } else {
                assert(repeat_dir(d, k).take(k) =~= repeat_dir(d, k - 1).push(d));
                lemma_walk_push(start, repeat_dir(d, k - 1), d);
                lemma_pos_at_full(start, repeat_dir(d, k - 1));
                assert(repeat_dir(d, k - 1).take(k - 1) =~= repeat_dir(d, k - 1));
                assert(pos_at(start, repeat_dir(d, k - 1), k - 1) == offset_in(start, d, k - 1));
            }
        }
    }
}

/// Straight-line law: when the target lies `k` cells from the head in a
/// single direction `d`, no cell strictly between them (nor the target) is
/// blocked, and `path` is a shortest free walk from head to target, then
/// `path` is exactly `k` repetitions of `d`. On this 20-by-20 board two
/// in-bounds cells on one line are at most 19 cells apart.
pub proof fn lemma_straight_line(body: Seq<Pos>, head: Pos, food: Pos, path: Seq<Dir>, d: Dir, k: int)
    requires
        head.spec_in_bounds(),
        food.spec_in_bounds(),
        1 <= k <= 19,
        food == offset_in(head, d, k),
        forall|j: int| 1 <= j <= k ==> !body.contains(#[trigger] offset_in(head, d, j)),
        path_ok(body, head, food, path),
        forall|ms: Seq<Dir>| #[trigger] path_ok(body, head, food, ms) ==> path.len() <= ms.len(),
    ensures
        path =~= repeat_dir(d, k),
{
    let rep = repeat_dir(d, k);
    lemma_repeat_positions(head, d, k);
    assert(path_ok(body, head, food, rep)) by {
        assert(pos_at(head, rep, k) == food);
    }
    assert(path.len() <= k);
    lemma_pos_at_zero(head, path);
    lemma_manhattan_lower(head, path, 0);
    assert(pos_at(head, path, path.len() as int) == food);
    lemma_walk_displacement(head, path);
    lemma_pos_at_full(head, path);
    assert(walk_from(head, path) == food);
    lemma_count_total(path);
    lemma_count_bounds(path, Dir::Left);
    lemma_count_bounds(path, Dir::Right);
    lemma_count_bounds(path, Dir::Up);
    lemma_count_bounds(path, Dir::Down);
    match d {
        Dir::Left => {
            assert(food.x == head.x - k && food.y == head.y);
            assert(manhattan(head, food) == k);
            assert(path.len() == k);
            assert(count_dir(path, Dir::Left) == k);
        },
        Dir::Right => {
            assert(food.x == head.x + k && food.y == head.y);
            assert(manhattan(head, food) == k);
            assert(path.len() == k);
            assert(count_dir(path, Dir::Right) == k);
        },
        Dir::Up => {
            assert(food.x == head.x && food.y == head.y + k);
            assert(manhattan(head, food) == k);
            assert(path.len() == k);
            assert(count_dir(path, Dir::Up) == k);
        },
        Dir::Down => {
            assert(food.x == head.x && food.y == head.y - k);
            assert(manhattan(head, food) == k);
            assert(path.len() == k);
            assert(count_dir(path, Dir::Down) == k);
        },
    }
    lemma_count_full(path, d);
    assert(path =~= repeat_dir(d, k));
}

/// Diagonal law: from (0, 0) to (19, 19) with nothing blocked but the head
/// itself, a shortest free walk makes exactly 19 Right and 19 Up moves and
/// none at all to the Left or Down.
pub proof fn lemma_diagonal_counts(body: Seq<Pos>, head: Pos, food: Pos, path: Seq<Dir>)
    requires
        head == (Pos { x: 0, y: 0 }),
        food == (Pos { x: 19, y: 19 }),
        forall|p: Pos| body.contains(p) ==> p == head,
        path_ok(body, head, food, path),
        forall|ms: Seq<Dir>| #[trigger] path_ok(body, head, food, ms) ==> path.len() <= ms.len(),
    ensures
        path.len() == 38,
        count_dir(path, Dir::Right) == 19,
        count_dir(path, Dir::Up) == 19,
        count_dir(path, Dir::Left) == 0,
        count_dir(path, Dir::Down) == 0,
{
    let across = repeat_dir(Dir::Right, 19);
    let upward = repeat_dir(Dir::Up, 19);
    let corner = Pos { x: 19, y: 0 };
    let diag = across + upward;
    lemma_repeat_positions(head, Dir::Right, 19);
    lemma_pos_at_full(head, across);
    assert(across.take(19) =~= across);
    assert(walk_from(head, across) == corner);
    lemma_repeat_positions(corner, Dir::Up, 19);
    assert(path_ok(body, head, food, diag)) by {
        assert forall|j: int| 1 <= j <= 38 implies (#[trigger] pos_at(head, diag, j))
            == if j <= 19 {
            offset_in(head, Dir::Right, j)
        } else {
            offset_in(corner, Dir::Up, j - 19)
        } by {
            if j <= 19 {
                assert(diag.take(j) =~= across.take(j));
                assert(pos_at(head, across, j) == offset_in(head, Dir::Right, j));
            } else {
                assert(diag.take(j) =~= across + upward.take(j - 19));
                lemma_walk_append(head, across, upward.take(j - 19));
                assert(pos_at(corner, upward, j - 19) == offset_in(corner, Dir::Up, j - 19));
            }
        }
        assert(pos_at(head, diag, 38) == food);
        assert forall|j: int| 1 <= j < 38 implies !body.contains(
            #[trigger] pos_at(head, diag, j),
        ) by {
            assert(pos_at(head, diag, j) != head);
        }
    }
    assert(path.len() <= 38);
    lemma_pos_at_zero(head, path);
    lemma_manhattan_lower(head, path, 0);
    assert(pos_at(head, path, path.len() as int) == food);
    assert(path.len() == 38);
    lemma_walk_displacement(head, path);
    lemma_pos_at_full(head, path);
    assert(walk_from(head, path) == food);
    lemma_count_total(path);
    lemma_count_bounds(path, Dir::Left);
    lemma_count_bounds(path, Dir::Right);
    lemma_count_bounds(path, Dir::Up);
    lemma_count_bounds(path, Dir::Down);
}

/// Any two shortest free walks between the same head and target have the
/// same length: the length of the planner's answer is a function of its
/// inputs alone.
pub proof fn lemma_shortest_lengths_agree(
    body: Seq<Pos>,
    head: Pos,
    food: Pos,
    first: Seq<Dir>,
    second: Seq<Dir>,
)
    requires
        path_ok(body, head, food, first),
        forall|ms: Seq<Dir>| #[trigger] path_ok(body, head, food, ms) ==> first.len() <= ms.len(),
        path_ok(body, head, food, second),
        forall|ms: Seq<Dir>| #[trigger] path_ok(body, head, food, ms) ==> second.len() <= ms.len(),
    ensures
        first.len() == second.len(),
{
}

/// Self-avoidance law: when every cell next to the head except the one in
/// direction `open_dir` belongs to the body, and the target is not a body
/// cell, a free walk from the head must start with `open_dir`.
pub proof fn lemma_first_move_through_open_cell(
    body: Seq<Pos>,
    head: Pos,
    food: Pos,
    path: Seq<Dir>,
    open_dir: Dir,
)
    requires
        path_ok(body, head, food, path),
        !body.contains(food),
        forall|d: Dir| d != open_dir ==> body.contains(#[trigger] head.spec_in_direction(d)),
    ensures
        path[0] == open_dir,
{
    lemma_pos_at_zero(head, path);
    lemma_pos_at_succ(head, path, 0);
    let p1 = pos_at(head, path, 1);
    assert(p1 == head.spec_in_direction(path[0]));
    if path[0] != open_dir {
        assert(body.contains(p1));
        if path.len() == 1 {
            assert(p1 == food);
        }
        assert(false);
    }
}

} // verus!
