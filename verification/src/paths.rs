use vstd::prelude::*;

use crate::components::{Dir, Pos};

verus! {

/// The cell reached from `start` by making the moves of `moves` in order.
pub open spec fn walk_from(start: Pos, moves: Seq<Dir>) -> Pos
    decreases moves.len(),
{
    if moves.len() == 0 {
        start
    } else {
        walk_from(start, moves.drop_last()).spec_in_direction(moves.last())
    }
}

/// The cell reached from `start` after the first `i` moves of `moves`.
pub open spec fn pos_at(start: Pos, moves: Seq<Dir>, i: int) -> Pos {
    walk_from(start, moves.take(i))
}

/// `moves` is a walk from `start` that stays on the board, enters no cell of
/// `body` before its end, and ends on `goal`.
pub open spec fn path_ok(body: Seq<Pos>, start: Pos, goal: Pos, moves: Seq<Dir>) -> bool {
    &&& moves.len() >= 1
    &&& forall|i: int|
        1 <= i <= moves.len() ==> (#[trigger] pos_at(start, moves, i)).spec_in_bounds()
    &&& forall|i: int| 1 <= i < moves.len() ==> !body.contains(#[trigger] pos_at(start, moves, i))
    &&& pos_at(start, moves, moves.len() as int) == goal
}

/// The grid (Manhattan) distance between two cells.
pub open spec fn manhattan(a: Pos, b: Pos) -> int {
    (if a.x >= b.x {
        a.x - b.x
    } else {
        b.x - a.x
    }) + (if a.y >= b.y {
        a.y - b.y
    } else {
        b.y - a.y
    })
}

/// How many moves of `moves` equal `d`.
pub open spec fn count_dir(moves: Seq<Dir>, d: Dir) -> int
    decreases moves.len(),
{
    if moves.len() == 0 {
        0
    } else {
        count_dir(moves.drop_last(), d) + if moves.last() == d {
            1int
        } else {
            0int
        }
    }
}

/// `moves` backwards: the first move of the result is the last of `moves`.
pub open spec fn rev_moves(moves: Seq<Dir>) -> Seq<Dir> {
    Seq::new(moves.len(), |i: int| moves[moves.len() - 1 - i])
}

pub proof fn lemma_rev_push(moves: Seq<Dir>, d: Dir)
    ensures
        rev_moves(moves.push(d)) == seq![d] + rev_moves(moves),
{
    assert(rev_moves(moves.push(d)) =~= seq![d] + rev_moves(moves));
}

pub proof fn lemma_pos_at_zero(start: Pos, moves: Seq<Dir>)
    ensures
        pos_at(start, moves, 0) == start,
{
    assert(moves.take(0) =~= Seq::<Dir>::empty());
}

pub proof fn lemma_walk_push(start: Pos, moves: Seq<Dir>, d: Dir)
    ensures
        walk_from(start, moves.push(d)) == walk_from(start, moves).spec_in_direction(d),
{
    assert(moves.push(d).drop_last() =~= moves);
}

pub proof fn lemma_pos_at_succ(start: Pos, moves: Seq<Dir>, i: int)
    requires
        0 <= i < moves.len(),
    ensures
        pos_at(start, moves, i + 1) == pos_at(start, moves, i).spec_in_direction(moves[i]),
{
    assert(moves.take(i + 1) =~= moves.take(i).push(moves[i]));
    lemma_walk_push(start, moves.take(i), moves[i]);
}

pub proof fn lemma_pos_at_full(start: Pos, moves: Seq<Dir>)
    ensures
        pos_at(start, moves, moves.len() as int) == walk_from(start, moves),
{
    assert(moves.take(moves.len() as int) =~= moves);
}

pub proof fn lemma_walk_cons(start: Pos, m: Dir, moves: Seq<Dir>)
    ensures
        walk_from(start, seq![m] + moves) == walk_from(start.spec_in_direction(m), moves),
    decreases moves.len(),
{
    if moves.len() == 0 {
        assert(seq![m] + moves =~= seq![m]);
        assert(seq![m].drop_last() =~= Seq::<Dir>::empty());
        assert(seq![m].last() == m);
        assert(walk_from(start, Seq::<Dir>::empty()) == start);
        assert(walk_from(start, seq![m]) == start.spec_in_direction(m));
    } else {
        assert((seq![m] + moves).drop_last() =~= seq![m] + moves.drop_last());
        assert((seq![m] + moves).last() == moves.last());
        lemma_walk_cons(start, m, moves.drop_last());
        assert(walk_from(start, seq![m] + moves) == walk_from(
            start,
            seq![m] + moves.drop_last(),
        ).spec_in_direction(moves.last()));
    }
}

pub proof fn lemma_pos_at_cons(start: Pos, m: Dir, moves: Seq<Dir>, j: int)
    requires
        1 <= j <= moves.len() + 1,
    ensures
        pos_at(start, seq![m] + moves, j) == pos_at(start.spec_in_direction(m), moves, j - 1),
{
    assert((seq![m] + moves).take(j) =~= seq![m] + moves.take(j - 1));
    lemma_walk_cons(start, m, moves.take(j - 1));
}

/// Any walk whose cells stay on the board covers at least the Manhattan
/// distance between the cell it has reached after `i` moves and its end.
pub proof fn lemma_manhattan_lower(start: Pos, moves: Seq<Dir>, i: int)
    requires
        0 <= i <= moves.len(),
        start.spec_in_bounds(),
        forall|j: int|
            1 <= j <= moves.len() ==> (#[trigger] pos_at(start, moves, j)).spec_in_bounds(),
    ensures
        manhattan(pos_at(start, moves, i), pos_at(start, moves, moves.len() as int)) <= moves.len()
            - i,
    decreases moves.len() - i,
{
    if i < moves.len() {
        lemma_manhattan_lower(start, moves, i + 1);
        lemma_pos_at_succ(start, moves, i);
        assert(pos_at(start, moves, 0) == start) by {
            assert(moves.take(0) =~= Seq::<Dir>::empty());
        }
    }
}

pub proof fn lemma_count_bounds(moves: Seq<Dir>, d: Dir)
    ensures
        0 <= count_dir(moves, d) <= moves.len(),
    decreases moves.len(),
{
    if moves.len() > 0 {
        lemma_count_bounds(moves.drop_last(), d);
    }
}

/// The four per-direction counts add up to the length of the walk.
pub proof fn lemma_count_total(moves: Seq<Dir>)
    ensures
        count_dir(moves, Dir::Left) + count_dir(moves, Dir::Right) + count_dir(moves, Dir::Up)
            + count_dir(moves, Dir::Down) == moves.len(),
    decreases moves.len(),
{
    if moves.len() > 0 {
        lemma_count_total(moves.drop_last());
    }
}

/// A walk all of whose moves are `d` is a sequence of `d`s and vice versa.
pub proof fn lemma_count_full(moves: Seq<Dir>, d: Dir)
    requires
        count_dir(moves, d) == moves.len(),
    ensures
        forall|i: int| 0 <= i < moves.len() ==> moves[i] == d,
    decreases moves.len(),
{
    if moves.len() > 0 {
        lemma_count_bounds(moves.drop_last(), d);
        lemma_count_full(moves.drop_last(), d);
        assert forall|i: int| 0 <= i < moves.len() implies moves[i] == d by {
            if i < moves.len() - 1 {
                assert(moves.drop_last()[i] == d);
            }
        }
    }
}

/// Where a walk ends, coordinate by coordinate: each Right move adds one to x
/// and each Left move takes one away, and likewise Up and Down for y.
pub proof fn lemma_walk_displacement(start: Pos, moves: Seq<Dir>)
    requires
        start.spec_in_bounds(),
        forall|j: int|
            1 <= j <= moves.len() ==> (#[trigger] pos_at(start, moves, j)).spec_in_bounds(),
    ensures
        walk_from(start, moves).x == start.x + count_dir(moves, Dir::Right) - count_dir(
            moves,
            Dir::Left,
        ),
        walk_from(start, moves).y == start.y + count_dir(moves, Dir::Up) - count_dir(
            moves,
            Dir::Down,
        ),
    decreases moves.len(),
{
    if moves.len() > 0 {
        let prev = moves.drop_last();
        assert forall|j: int| 1 <= j <= prev.len() implies (#[trigger] pos_at(
            start,
            prev,
            j,
        )).spec_in_bounds() by {
            assert(prev.take(j) =~= moves.take(j));
            assert(pos_at(start, moves, j).spec_in_bounds());
        }
        lemma_walk_displacement(start, prev);
        assert(walk_from(start, prev) == pos_at(start, moves, moves.len() - 1)) by {
            assert(moves.take(moves.len() - 1) =~= prev);
        }
        lemma_pos_at_full(start, moves);
        if moves.len() == 1 {
            assert(pos_at(start, moves, 0) == start) by {
                assert(moves.take(0) =~= Seq::<Dir>::empty());
            }
        }
    }
}

pub proof fn lemma_walk_append(start: Pos, a: Seq<Dir>, b: Seq<Dir>)
    ensures
        walk_from(start, a + b) == walk_from(walk_from(start, a), b),
    decreases b.len(),
{
    if b.len() == 0 {
        assert(a + b =~= a);
    } else {
        assert((a + b).drop_last() =~= a + b.drop_last());
        lemma_walk_append(start, a, b.drop_last());
    }
}

} // verus!
