use vstd::prelude::*;

use crate::components::{Dir, Pos};
use crate::consts::{ARENA_WIDTH, BOARD_SIZE};
use crate::paths::{manhattan, path_ok, pos_at, rev_moves};

verus! {

/// Path cost of a cell: `g_cost` moves made from the head, `h_cost` the
/// Manhattan estimate to the target, and `f_cost` their sum. An unvisited
/// cell holds the sentinel `u32::MAX` in every field, strictly greater than
/// any reachable cost.
#[derive(Clone, Copy, Debug)]
struct Cost {
    f_cost: u32,
    g_cost: u32,
    h_cost: u32,
}

/// What occupies a cell for the duration of one search.
#[derive(Clone, Copy, Debug, PartialEq, Eq, Structural)]
enum NodeKind {
    Food,
    Empty,
    Snake,
}

/// The per-cell search record.
#[derive(Clone, Copy, Debug)]
struct Node {
    kind: NodeKind,
    cost: Cost,
    dir_back: Option<Dir>,
}

/// A frontier entry: the cell's record as it was when pushed, and the cell.
#[derive(Clone, Copy, Debug)]
struct HeapElem {
    node: Node,
    pos: Pos,
}

/// The whole board for one search, one node per cell, addressed by a
/// linearized (x, y) index.
struct Board {
    nodes: Vec<Node>,
}

/// The linear index of a cell: row times width plus column.
spec fn spec_idx(p: Pos) -> int {
    p.y * (ARENA_WIDTH as int) + p.x
}

/// Two distinct in-bounds cells have distinct linear indices.
proof fn lemma_idx_injective(p: Pos, q: Pos)
    requires
        p.spec_in_bounds(),
        q.spec_in_bounds(),
        spec_idx(p) == spec_idx(q),
    ensures
        p == q,
{
}

proof fn lemma_idx_range(p: Pos)
    requires
        p.spec_in_bounds(),
    ensures
        0 <= spec_idx(p) < 400,
{
}

/// What `Board::new` records for a cell: the target is Food, any other body
/// cell is Snake, and the rest is Empty; the target wins when it coincides
/// with a body cell.
spec fn kind_at(body: Seq<Pos>, food: Pos, p: Pos) -> NodeKind {
    if p == food {
        NodeKind::Food
    } else if body.contains(p) {
        NodeKind::Snake
    } else {
        NodeKind::Empty
    }
}

/// A fresh, unvisited node as `Board::new` leaves it.
spec fn fresh_node(body: Seq<Pos>, food: Pos, p: Pos) -> Node {
    Node {
        kind: kind_at(body, food, p),
        cost: Cost { f_cost: u32::MAX, g_cost: u32::MAX, h_cost: u32::MAX },
        dir_back: None,
    }
}

impl Cost {
    /// The cost of a cell `g_cost` moves from the head: `h_cost` is the
    /// Manhattan distance from `node` to `goal` and `f_cost` is `g + h`.
    fn compute(g_cost: u32, node: Pos, goal: Pos) -> (c: Cost)
        requires
            node.spec_in_bounds(),
            goal.spec_in_bounds(),
            g_cost <= 1000,
        ensures
            c.g_cost == g_cost,
            c.h_cost == manhattan(node, goal),
            c.f_cost == g_cost + c.h_cost,
    {
        let dx: u32 = if node.x >= goal.x {
            (node.x - goal.x) as u32
        } else {
            (goal.x - node.x) as u32
        };
        let dy: u32 = if node.y >= goal.y {
            (node.y - goal.y) as u32
        } else {
            (goal.y - node.y) as u32
        };
        let h_cost = dx + dy;
        Cost { f_cost: g_cost + h_cost, g_cost, h_cost }
    }
}

impl Cost {
    /// The sentinel cost of a cell no path has reached yet.
    fn unvisited() -> (c: Cost)
        ensures
            c.f_cost == u32::MAX,
            c.g_cost == u32::MAX,
            c.h_cost == u32::MAX,
    {
        Cost { f_cost: u32::MAX, g_cost: u32::MAX, h_cost: u32::MAX }
    }
}

impl Node {
    /// An empty, unvisited node with no back direction.
    fn unvisited() -> (n: Node)
        ensures
            n.kind == NodeKind::Empty,
            n.cost.f_cost == u32::MAX,
            n.cost.g_cost == u32::MAX,
            n.cost.h_cost == u32::MAX,
            n.dir_back is None,
    {
        Node { kind: NodeKind::Empty, cost: Cost::unvisited(), dir_back: None }
    }
}

/// The total order on costs used by the frontier: by `f_cost` first, then
/// `g_cost`, then `h_cost`.
spec fn cost_le(a: Cost, b: Cost) -> bool {
    ||| a.f_cost < b.f_cost
    ||| (a.f_cost == b.f_cost && a.g_cost < b.g_cost)
    ||| (a.f_cost == b.f_cost && a.g_cost == b.g_cost && a.h_cost <= b.h_cost)
}

/// Strict comparison matching `cost_le`.
fn cost_lt(a: &Cost, b: &Cost) -> (r: bool)
    ensures
        r == (cost_le(*a, *b) && *a != *b),
{
    if a.f_cost != b.f_cost {
        a.f_cost < b.f_cost
    } else if a.g_cost != b.g_cost {
        a.g_cost < b.g_cost
    } else {
        a.h_cost < b.h_cost
    }
}

/// Removes and returns the least entry of the frontier by `cost_le`; among
/// equal costs the one pushed earliest leaves first.
fn pop_min(heap: &mut Vec<HeapElem>) -> (e: HeapElem)
    requires
        old(heap)@.len() > 0,
    ensures
        exists|i: int|
            0 <= i < old(heap)@.len() && e == old(heap)@[i] && final(heap)@ == old(heap)@.remove(
                i,
            ),
        forall|k: int|
            0 <= k < old(heap)@.len() ==> cost_le(e.node.cost, (#[trigger] old(heap)@[k]).node.cost),
{
    let mut best: usize = 0;
    let mut j: usize = 1;
    while j < heap.len()
        invariant
            heap@ == old(heap)@,
            heap@.len() > 0,
            0 <= best < j <= heap@.len(),
            forall|k: int|
                0 <= k < j ==> cost_le(heap@[best as int].node.cost, (#[trigger] heap@[k]).node.cost),
        decreases heap@.len() - j,
    {
        if cost_lt(&heap[j].node.cost, &heap[best].node.cost) {
            best = j;
        }
        j = j + 1;
    }
    let e = heap.remove(best);
    proof {
        assert(e == old(heap)@[best as int] && heap@ == old(heap)@.remove(best as int));
    }
    e
}

impl Board {
    spec fn wf(self) -> bool {
        self.nodes@.len() == 400
    }

    fn index_of(p: Pos) -> (i: usize)
        requires
            p.spec_in_bounds(),
        ensures
            i == spec_idx(p),
            i < 400,
    {
        (p.y as usize) * (ARENA_WIDTH as usize) + (p.x as usize)
    }

    fn get(&self, pos: Pos) -> (n: Node)
        requires
            self.wf(),
            pos.spec_in_bounds(),
        ensures
            n == self.nodes@[spec_idx(pos)],
    {
        self.nodes[Board::index_of(pos)]
    }

    fn set(&mut self, pos: Pos, n: Node)
        requires
            old(self).wf(),
            pos.spec_in_bounds(),
        ensures
            final(self).wf(),
            final(self).nodes@ == old(self).nodes@.update(spec_idx(pos), n),
    {
        let i = Board::index_of(pos);
        self.nodes[i] = n;
    }

    /// Builds the board for one search: every cell of `snake` is marked
    /// Snake, then `food` is marked Food (the target wins a coincidence);
    /// every cell starts unvisited with no back direction.
    fn new(snake: &Vec<Pos>, food: Pos) -> (b: Board)
        requires
            forall|i: int| 0 <= i < snake@.len() ==> (#[trigger] snake@[i]).spec_in_bounds(),
            food.spec_in_bounds(),
        ensures
            b.wf(),
            forall|p: Pos|
                p.spec_in_bounds() ==> b.nodes@[spec_idx(p)] == fresh_node(snake@, food, p),
    {
        let mut nodes: Vec<Node> = Vec::new();
        let mut i: usize = 0;
        while i < BOARD_SIZE
            invariant
                nodes@.len() == i,
                i <= 400,
                forall|j: int|
                    0 <= j < i ==> (#[trigger] nodes@[j]) == (Node {
                        kind: NodeKind::Empty,
                        cost: Cost { f_cost: u32::MAX, g_cost: u32::MAX, h_cost: u32::MAX },
                        dir_back: None,
                    }),
            decreases 400 - i,
        {
            nodes.push(Node::unvisited());
            i = i + 1;
        }
        let mut b = Board { nodes };
        let mut s: usize = 0;
        while s < snake.len()
            invariant
                b.wf(),
                forall|k: int| 0 <= k < snake@.len() ==> (#[trigger] snake@[k]).spec_in_bounds(),
                s <= snake@.len(),
                forall|p: Pos|
                    p.spec_in_bounds() ==> (#[trigger] b.nodes@[spec_idx(p)]) == (Node {
                        kind: if snake@.take(s as int).contains(p) {
                            NodeKind::Snake
                        } else {
                            NodeKind::Empty
                        },
                        cost: Cost { f_cost: u32::MAX, g_cost: u32::MAX, h_cost: u32::MAX },
                        dir_back: None,
                    }),
            decreases snake@.len() - s,
        {
            let seg = snake[s];
            let old_n = b.get(seg);
            b.set(seg, Node { kind: NodeKind::Snake, cost: old_n.cost, dir_back: old_n.dir_back });
            proof {
                assert(snake@.take(s + 1) =~= snake@.take(s as int).push(snake@[s as int]));
                assert forall|p: Pos| p.spec_in_bounds() implies (#[trigger] b.nodes@[spec_idx(p)])
                    == (Node {
                    kind: if snake@.take(s + 1).contains(p) {
                        NodeKind::Snake
                    } else {
                        NodeKind::Empty
                    },
                    cost: Cost { f_cost: u32::MAX, g_cost: u32::MAX, h_cost: u32::MAX },
                    dir_back: None,
                }) by {
                    lemma_idx_range(p);
                    if p != seg {
                        if spec_idx(p) == spec_idx(seg) {
                            lemma_idx_injective(p, seg);
                        }
                        if snake@.take(s + 1).contains(p) {
                            let w = choose|w: int|
                                0 <= w < s + 1 && #[trigger] snake@.take(s + 1)[w] == p;
                            assert(snake@.take(s as int)[w] == p);
                        } else {
                            assert(!snake@.take(s as int).contains(p)) by {
                                if snake@.take(s as int).contains(p) {
                                    let w = choose|w: int|
                                        0 <= w < s && #[trigger] snake@.take(s as int)[w]
                                            == p;
                                    assert(snake@.take(s + 1)[w] == p);
                                }
                            }
                        }
                    } else {
                        assert(snake@.take(s + 1)[s as int] == p);
                    }
                }
            }
            s = s + 1;
        }
        let old_f = b.get(food);
        b.set(food, Node { kind: NodeKind::Food, cost: old_f.cost, dir_back: old_f.dir_back });
        proof {
            assert(snake@.take(snake@.len() as int) =~= snake@);
            assert forall|p: Pos| p.spec_in_bounds() implies b.nodes@[spec_idx(p)] == fresh_node(
                snake@,
                food,
                p,
            ) by {
                lemma_idx_range(p);
                if p != food && spec_idx(p) == spec_idx(food) {
                    lemma_idx_injective(p, food);
                }
            }
        }
        b
    }
}

/// The sum of the g costs of all cells; with the frontier's length it forms
/// the termination measure of the search.
spec fn sum_g(nodes: Seq<Node>) -> nat
    decreases nodes.len(),
{
    if nodes.len() == 0 {
        0
    } else {
        sum_g(nodes.drop_last()) + nodes.last().cost.g_cost as nat
    }
}

/// Every back pointer of the board points one cell closer to the head: the
/// cell holding it is a free, reached cell, its predecessor is on the board
/// with a strictly smaller g cost, and the predecessor is the head or again
/// holds a back pointer.
spec fn back_ok(body: Seq<Pos>, head: Pos, food: Pos, nodes: Seq<Node>, p: Pos) -> bool {
    match nodes[spec_idx(p)].dir_back {
        None => true,
        Some(d) => {
            let q = p.spec_in_direction(d);
            &&& p != head
            &&& p != food
            &&& !body.contains(p)
            &&& nodes[spec_idx(p)].cost.g_cost < u32::MAX
            &&& q.spec_in_bounds()
            &&& nodes[spec_idx(q)].cost.g_cost < nodes[spec_idx(p)].cost.g_cost
            &&& (q == head || nodes[spec_idx(q)].dir_back is Some)
        },
    }
}

/// A witness that a frontier entry's g cost is honest: a walk of exactly that
/// many moves from the head to the entry's cell, through distinct free cells,
/// each already reached at a g cost no larger than its place in the walk.
spec fn reach_path_ok(
    body: Seq<Pos>,
    head: Pos,
    food: Pos,
    nodes: Seq<Node>,
    last: Pos,
    g: int,
    ms: Seq<Dir>,
) -> bool {
    &&& ms.len() == g
    &&& pos_at(head, ms, g) == last
    &&& forall|i: int|
        1 <= i <= g ==> (#[trigger] pos_at(head, ms, i)).spec_in_bounds() && !body.contains(
            pos_at(head, ms, i),
        ) && pos_at(head, ms, i) != food
    &&& forall|i: int, j: int|
        0 <= i < j <= g ==> #[trigger] pos_at(head, ms, i) != #[trigger] pos_at(head, ms, j)
    &&& forall|i: int|
        0 <= i <= g ==> nodes[spec_idx(#[trigger] pos_at(head, ms, i))].cost.g_cost <= i
}

/// A well-formed frontier entry: on the board, with an honest cost triple
/// whose heuristic is the Manhattan distance to the target, no better than
/// what the board already records for its cell, and backed by a reach path.
spec fn elem_ok(body: Seq<Pos>, head: Pos, food: Pos, nodes: Seq<Node>, e: HeapElem) -> bool {
    &&& e.pos.spec_in_bounds()
    &&& e.node.cost.g_cost < 400
    &&& e.node.cost.h_cost == manhattan(e.pos, food)
    &&& e.node.cost.f_cost == e.node.cost.g_cost + e.node.cost.h_cost
    &&& nodes[spec_idx(e.pos)].cost.g_cost <= e.node.cost.g_cost
    &&& (e.pos == head || nodes[spec_idx(e.pos)].dir_back is Some)
    &&& exists|ms: Seq<Dir>|
        reach_path_ok(body, head, food, nodes, e.pos, e.node.cost.g_cost as int, ms)
}

/// The frontier holds an entry for cell `p` whose recorded g cost is `g`.
spec fn covers(elems: Seq<HeapElem>, p: Pos, g: u32) -> bool {
    exists|k: int|
        0 <= k < elems.len() && (#[trigger] elems[k]).pos == p && elems[k].node.cost.g_cost == g
}

/// What a finished expansion of cell `p` at g cost `v` guarantees: every
/// in-bounds neighbour is either a body cell or already reached at cost at
/// most `v + 1`, and — unless the target is the head itself — none of them
/// is the target, since an expansion that generates the target ends the
/// search at once.
spec fn expanded_ok(
    body: Seq<Pos>,
    head: Pos,
    food: Pos,
    nodes: Seq<Node>,
    v: int,
    p: Pos,
) -> bool {
    &&& p.spec_in_bounds()
    &&& 0 <= v < 400
    &&& forall|d: Dir|
        (#[trigger] p.spec_in_direction(d)).spec_in_bounds() ==> ((food != head
            ==> p.spec_in_direction(d) != food) && (body.contains(p.spec_in_direction(d))
            || nodes[spec_idx(p.spec_in_direction(d))].cost.g_cost <= v + 1))
}

/// The search invariant, tying the board, the frontier and the set of fully
/// expanded cells together between iterations.
spec fn search_inv(
    body: Seq<Pos>,
    head: Pos,
    food: Pos,
    nodes: Seq<Node>,
    elems: Seq<HeapElem>,
    expanded: Map<Pos, int>,
) -> bool {
    &&& nodes.len() == 400
    &&& head.spec_in_bounds()
    &&& food.spec_in_bounds()
    &&& forall|p: Pos|
        p.spec_in_bounds() ==> (#[trigger] nodes[spec_idx(p)]).kind == kind_at(body, food, p)
    &&& nodes[spec_idx(head)].cost.g_cost == 0
    &&& nodes[spec_idx(head)].dir_back is None
    &&& (food != head ==> nodes[spec_idx(food)].cost.g_cost == u32::MAX)
    &&& forall|p: Pos| p.spec_in_bounds() ==> #[trigger] back_ok(body, head, food, nodes, p)
    &&& forall|k: int|
        0 <= k < elems.len() ==> elem_ok(body, head, food, nodes, #[trigger] elems[k])
    &&& forall|p: Pos|
        p.spec_in_bounds() && (#[trigger] nodes[spec_idx(p)]).cost.g_cost < u32::MAX ==> (covers(
            elems,
            p,
            nodes[spec_idx(p)].cost.g_cost,
        ) || (expanded.contains_key(p) && expanded[p] <= nodes[spec_idx(p)].cost.g_cost))
    &&& forall|p: Pos|
        #[trigger] expanded.contains_key(p) ==> expanded_ok(body, head, food, nodes, expanded[p], p)
}

/// A walk through distinct in-bounds cells cannot be longer than the board.
proof fn lemma_distinct_bound(
    body: Seq<Pos>,
    head: Pos,
    food: Pos,
    nodes: Seq<Node>,
    last: Pos,
    g: int,
    ms: Seq<Dir>,
)
    requires
        head.spec_in_bounds(),
        reach_path_ok(body, head, food, nodes, last, g, ms),
    ensures
        ms.len() < 400,
{
    let n = ms.len() as int;
    let iseq = Seq::new((n + 1) as nat, |i: int| spec_idx(pos_at(head, ms, i)));
    assert(pos_at(head, ms, 0) == head) by {
        crate::paths::lemma_pos_at_zero(head, ms);
    }
    assert forall|i: int, j: int|
        0 <= i < iseq.len() && 0 <= j < iseq.len() && i != j implies iseq[i] != iseq[j] by {
        let a = if i < j {
            i
        } else {
            j
        };
        let b = if i < j {
            j
        } else {
            i
        };
        assert(pos_at(head, ms, a) != pos_at(head, ms, b));
        assert(pos_at(head, ms, a).spec_in_bounds());
        assert(pos_at(head, ms, b).spec_in_bounds());
        if iseq[a] == iseq[b] {
            lemma_idx_injective(pos_at(head, ms, a), pos_at(head, ms, b));
        }
    }
    assert(iseq.no_duplicates());
    iseq.unique_seq_to_set();
    assert(iseq.to_set().subset_of(vstd::set_lib::set_int_range(0, 400))) by {
        assert forall|x: int| iseq.to_set().contains(x) implies vstd::set_lib::set_int_range(
            0,
            400,
        ).contains(x) by {
            let i = choose|i: int| 0 <= i < iseq.len() && iseq[i] == x;
            assert(pos_at(head, ms, i).spec_in_bounds());
            lemma_idx_range(pos_at(head, ms, i));
        }
    }
    vstd::set_lib::lemma_int_range(0, 400);
    vstd::set_lib::lemma_len_subset(iseq.to_set(), vstd::set_lib::set_int_range(0, 400));
}

/// The certificate lemma: while the invariant holds and the target is a cell
/// of its own, every free walk from the head to the target passes through a
/// cell for which the frontier still holds an entry at least as good as the
/// walk's own prefix. In particular an empty frontier refutes every walk.
proof fn lemma_cert(
    body: Seq<Pos>,
    head: Pos,
    food: Pos,
    nodes: Seq<Node>,
    elems: Seq<HeapElem>,
    expanded: Map<Pos, int>,
    ms: Seq<Dir>,
    i: int,
)
    requires
        search_inv(body, head, food, nodes, elems, expanded),
        path_ok(body, head, food, ms),
        food != head,
        0 <= i <= ms.len(),
        pos_at(head, ms, i) != food,
        pos_at(head, ms, i).spec_in_bounds(),
        nodes[spec_idx(pos_at(head, ms, i))].cost.g_cost <= i,
        nodes[spec_idx(pos_at(head, ms, i))].cost.g_cost < u32::MAX,
    ensures
        exists|k: int, j: int|
            0 <= k < elems.len() && i <= j <= ms.len() && (#[trigger] elems[k]).pos
                == #[trigger] pos_at(head, ms, j) && elems[k].node.cost.g_cost <= j,
    decreases ms.len() - i,
{
    let p = pos_at(head, ms, i);
    assert(i < ms.len());
    if covers(elems, p, nodes[spec_idx(p)].cost.g_cost) {
        let k = choose|k: int|
            0 <= k < elems.len() && (#[trigger] elems[k]).pos == p && elems[k].node.cost.g_cost
                == nodes[spec_idx(p)].cost.g_cost;
        assert(elems[k].pos == pos_at(head, ms, i) && elems[k].node.cost.g_cost <= i);
    } else {
        assert(expanded.contains_key(p) && expanded[p] <= nodes[spec_idx(p)].cost.g_cost);
        assert(expanded_ok(body, head, food, nodes, expanded[p], p));
        let q = pos_at(head, ms, i + 1);
        crate::paths::lemma_pos_at_succ(head, ms, i);
        assert(q == p.spec_in_direction(ms[i]));
        assert(q.spec_in_bounds());
        assert(q != food);
        if i + 1 == ms.len() {
            assert(pos_at(head, ms, ms.len() as int) == food);
            assert(false);
        } else {
            assert(!body.contains(q));
            assert(nodes[spec_idx(q)].cost.g_cost <= expanded[p] + 1 <= i + 1);
            assert(nodes[spec_idx(q)].cost.g_cost <= 400 < u32::MAX);
            lemma_cert(body, head, food, nodes, elems, expanded, ms, i + 1);
        }
    }
}

proof fn lemma_sum_update(nodes: Seq<Node>, i: int, n: Node)
    requires
        0 <= i < nodes.len(),
    ensures
        sum_g(nodes.update(i, n)) + nodes[i].cost.g_cost == sum_g(nodes) + n.cost.g_cost,
    decreases nodes.len(),
{
    if i == nodes.len() - 1 {
        assert(nodes.update(i, n).drop_last() =~= nodes.drop_last());
    } else {
        assert(nodes.update(i, n).drop_last() =~= nodes.drop_last().update(i, n));
        lemma_sum_update(nodes.drop_last(), i, n);
    }
}

/// Updating one cell leaves every other cell's node unchanged.
proof fn lemma_update_frame(nodes: Seq<Node>, q: Pos, n: Node)
    requires
        nodes.len() == 400,
        q.spec_in_bounds(),
    ensures
        forall|p: Pos|
            p.spec_in_bounds() && p != q ==> #[trigger] nodes.update(spec_idx(q), n)[spec_idx(p)]
                == nodes[spec_idx(p)],
        nodes.update(spec_idx(q), n)[spec_idx(q)] == n,
{
    lemma_idx_range(q);
    assert forall|p: Pos| p.spec_in_bounds() && p != q implies #[trigger] nodes.update(
        spec_idx(q),
        n,
    )[spec_idx(p)] == nodes[spec_idx(p)] by {
        lemma_idx_range(p);
        if spec_idx(p) == spec_idx(q) {
            lemma_idx_injective(p, q);
        }
    }
}

/// Taking an entry out of the frontier and appending it again loses no cover.
proof fn lemma_covers_shift(pre: Seq<HeapElem>, i: int, p: Pos, g: u32)
    requires
        0 <= i < pre.len(),
        covers(pre, p, g),
    ensures
        covers(pre.remove(i).push(pre[i]), p, g),
{
    let s = pre.remove(i).push(pre[i]);
    let k = choose|k: int|
        0 <= k < pre.len() && (#[trigger] pre[k]).pos == p && pre[k].node.cost.g_cost == g;
    if k == i {
        assert(s[s.len() - 1] == pre[i]);
    } else if k < i {
        assert(s[k] == pre[k]);
    } else {
        assert(s[k - 1] == pre[k]);
    }
}

/// A free walk from the head to the target is at least as long as the least
/// f cost held on the frontier: the admissible heuristic never overestimates
/// the distance still to cover.
proof fn lemma_lower_bound(
    body: Seq<Pos>,
    head: Pos,
    food: Pos,
    nodes: Seq<Node>,
    elems: Seq<HeapElem>,
    expanded: Map<Pos, int>,
    least: Cost,
    ms: Seq<Dir>,
)
    requires
        search_inv(body, head, food, nodes, elems, expanded),
        path_ok(body, head, food, ms),
        food != head,
        forall|k: int|
            0 <= k < elems.len() ==> least.f_cost <= (#[trigger] elems[k]).node.cost.f_cost,
    ensures
        least.f_cost <= ms.len(),
{
    crate::paths::lemma_pos_at_zero(head, ms);
    lemma_cert(body, head, food, nodes, elems, expanded, ms, 0);
    let (k, j) = choose|k: int, j: int|
        0 <= k < elems.len() && 0 <= j <= ms.len() && (#[trigger] elems[k]).pos
            == #[trigger] pos_at(head, ms, j) && elems[k].node.cost.g_cost <= j;
    let m = elems[k];
    assert(elem_ok(body, head, food, nodes, m));
    crate::paths::lemma_manhattan_lower(head, ms, j);
    assert(pos_at(head, ms, ms.len() as int) == food);
    assert(m.node.cost.h_cost <= ms.len() - j);
    assert(m.node.cost.f_cost <= ms.len());
    assert(least.f_cost <= m.node.cost.f_cost);
}

/// The invariant holds right after the board is built, the head is seeded
/// with g cost 0, and the frontier holds the head alone.
proof fn lemma_init_inv(body: Seq<Pos>, head: Pos, food: Pos, nodes: Seq<Node>, e0: HeapElem)
    requires
        nodes.len() == 400,
        head.spec_in_bounds(),
        food.spec_in_bounds(),
        forall|p: Pos|
            p.spec_in_bounds() && p != head ==> #[trigger] nodes[spec_idx(p)] == fresh_node(
                body,
                food,
                p,
            ),
        nodes[spec_idx(head)].kind == kind_at(body, food, head),
        nodes[spec_idx(head)].cost.g_cost == 0,
        nodes[spec_idx(head)].cost.h_cost == manhattan(head, food),
        nodes[spec_idx(head)].cost.f_cost == nodes[spec_idx(head)].cost.h_cost,
        nodes[spec_idx(head)].dir_back is None,
        e0.pos == head,
        e0.node == nodes[spec_idx(head)],
    ensures
        search_inv(body, head, food, nodes, seq![e0], Map::<Pos, int>::empty()),
{
    let elems = seq![e0];
    assert forall|p: Pos| p.spec_in_bounds() implies #[trigger] back_ok(
        body,
        head,
        food,
        nodes,
        p,
    ) by {
        if p != head {
            assert(nodes[spec_idx(p)] == fresh_node(body, food, p));
        }
    }
    assert(elem_ok(body, head, food, nodes, e0)) by {
        assert(manhattan(head, food) <= 38);
        let w = Seq::<Dir>::empty();
        assert(pos_at(head, w, 0) == head) by {
            crate::paths::lemma_pos_at_zero(head, w);
        }
        assert(reach_path_ok(body, head, food, nodes, head, 0, w));
    }
    assert forall|p: Pos|
        p.spec_in_bounds() && (#[trigger] nodes[spec_idx(p)]).cost.g_cost < u32::MAX implies (
    covers(elems, p, nodes[spec_idx(p)].cost.g_cost) || (Map::<Pos, int>::empty().contains_key(p)
        && Map::<Pos, int>::empty()[p] <= nodes[spec_idx(p)].cost.g_cost)) by {
        if p == head {
            assert(elems[0].pos == head && elems[0].node.cost.g_cost == 0);
            assert(covers(elems, p, nodes[spec_idx(p)].cost.g_cost));
        } else {
            assert(nodes[spec_idx(p)] == fresh_node(body, food, p));
        }
    }
}

/// The invariant survives taking the least entry out of the frontier, as
/// long as that entry is virtually appended again.
proof fn lemma_inv_after_pop(
    body: Seq<Pos>,
    head: Pos,
    food: Pos,
    nodes: Seq<Node>,
    pre: Seq<HeapElem>,
    i: int,
    expanded: Map<Pos, int>,
)
    requires
        search_inv(body, head, food, nodes, pre, expanded),
        0 <= i < pre.len(),
    ensures
        search_inv(body, head, food, nodes, pre.remove(i).push(pre[i]), expanded),
{
    let s = pre.remove(i).push(pre[i]);
    assert forall|k: int| 0 <= k < s.len() implies elem_ok(
        body,
        head,
        food,
        nodes,
        #[trigger] s[k],
    ) by {
        if k < i {
            assert(s[k] == pre[k]);
        } else if k < pre.len() - 1 {
            assert(s[k] == pre[k + 1]);
        } else {
            assert(s[k] == pre[i]);
        }
    }
    assert forall|p: Pos|
        p.spec_in_bounds() && (#[trigger] nodes[spec_idx(p)]).cost.g_cost < u32::MAX implies (
    covers(s, p, nodes[spec_idx(p)].cost.g_cost) || (expanded.contains_key(p) && expanded[p]
        <= nodes[spec_idx(p)].cost.g_cost)) by {
        if covers(pre, p, nodes[spec_idx(p)].cost.g_cost) {
            lemma_covers_shift(pre, i, p, nodes[spec_idx(p)].cost.g_cost);
        }
    }
}

/// A frontier entry stays well formed when the board only improves: g costs
/// only go down and back pointers, once set, stay set.
proof fn lemma_elem_ok_mono(
    body: Seq<Pos>,
    head: Pos,
    food: Pos,
    nodes0: Seq<Node>,
    nodes1: Seq<Node>,
    m: HeapElem,
)
    requires
        nodes0.len() == 400,
        nodes1.len() == 400,
        head.spec_in_bounds(),
        elem_ok(body, head, food, nodes0, m),
        forall|p: Pos|
            p.spec_in_bounds() ==> (#[trigger] nodes1[spec_idx(p)]).cost.g_cost <= nodes0[spec_idx(
                p,
            )].cost.g_cost,
        forall|p: Pos|
            p.spec_in_bounds() ==> (nodes0[spec_idx(p)].dir_back is Some ==> (
            #[trigger] nodes1[spec_idx(p)]).dir_back is Some),
    ensures
        elem_ok(body, head, food, nodes1, m),
{
    let g = m.node.cost.g_cost as int;
    let w = choose|w: Seq<Dir>| reach_path_ok(body, head, food, nodes0, m.pos, g, w);
    assert forall|i: int| 0 <= i <= g implies nodes1[spec_idx(
        #[trigger] pos_at(head, w, i),
    )].cost.g_cost <= i by {
        if i == 0 {
            crate::paths::lemma_pos_at_zero(head, w);
        }
        assert(pos_at(head, w, i).spec_in_bounds());
        assert(nodes0[spec_idx(pos_at(head, w, i))].cost.g_cost <= i);
    }
    assert(reach_path_ok(body, head, food, nodes1, m.pos, g, w));
}

/// The invariant survives relaxing a free, non-target neighbour `q` of the
/// expanded entry `e`: the board records the shorter route to `q` with its
/// back pointer, and `q` joins the frontier.
proof fn lemma_inv_relax(
    body: Seq<Pos>,
    head: Pos,
    food: Pos,
    nodes0: Seq<Node>,
    hb: Seq<HeapElem>,
    e: HeapElem,
    expanded: Map<Pos, int>,
    dir: Dir,
    newnode: Node,
)
    requires
        search_inv(body, head, food, nodes0, hb.push(e), expanded),
        e.pos.spec_in_direction(dir).spec_in_bounds(),
        kind_at(body, food, e.pos.spec_in_direction(dir)) == NodeKind::Empty,
        nodes0[spec_idx(e.pos.spec_in_direction(dir))].cost.g_cost > e.node.cost.g_cost + 1,
        newnode.kind == nodes0[spec_idx(e.pos.spec_in_direction(dir))].kind,
        newnode.cost.g_cost == e.node.cost.g_cost + 1,
        newnode.cost.h_cost == manhattan(e.pos.spec_in_direction(dir), food),
        newnode.cost.f_cost == newnode.cost.g_cost + newnode.cost.h_cost,
        newnode.dir_back == Some(dir.spec_opposite()),
    ensures
        search_inv(
            body,
            head,
            food,
            nodes0.update(spec_idx(e.pos.spec_in_direction(dir)), newnode),
            hb.push(HeapElem { node: newnode, pos: e.pos.spec_in_direction(dir) }).push(e),
            expanded,
        ),
{
    let q = e.pos.spec_in_direction(dir);
    let g = e.node.cost.g_cost;
    let virt0 = hb.push(e);
    let nodes1 = nodes0.update(spec_idx(q), newnode);
    let x = HeapElem { node: newnode, pos: q };
    let virt1 = hb.push(x).push(e);
    assert(virt0[hb.len() as int] == e);
    assert(elem_ok(body, head, food, nodes0, e));
    lemma_update_frame(nodes0, q, newnode);
    assert(q != head);
    assert(q != food && !body.contains(q));
    assert(e.pos != q);
    assert forall|p: Pos| p.spec_in_bounds() implies (#[trigger] nodes1[spec_idx(p)]).cost.g_cost
        <= nodes0[spec_idx(p)].cost.g_cost && nodes1[spec_idx(p)].kind == nodes0[spec_idx(
        p,
    )].kind && (nodes0[spec_idx(p)].dir_back is Some ==> nodes1[spec_idx(p)].dir_back is Some) by {
        if p != q {
            assert(nodes1[spec_idx(p)] == nodes0[spec_idx(p)]);
        }
    }
    // back pointers
    assert forall|p: Pos| p.spec_in_bounds() implies #[trigger] back_ok(
        body,
        head,
        food,
        nodes1,
        p,
    ) by {
        assert(back_ok(body, head, food, nodes0, p));
        if p == q {
            crate::components::lemma_step_opposite(e.pos, dir);
            assert(q.spec_in_direction(dir.spec_opposite()) == e.pos);
            assert(nodes1[spec_idx(e.pos)].cost.g_cost <= g);
        } else {
            match nodes0[spec_idx(p)].dir_back {
                None => {},
                Some(d) => {
                    let r = p.spec_in_direction(d);
                    assert(nodes1[spec_idx(r)].cost.g_cost <= nodes0[spec_idx(r)].cost.g_cost);
                },
            }
        }
    }
    // the new frontier entry's reach path
    let we = choose|w: Seq<Dir>| reach_path_ok(body, head, food, nodes0, e.pos, g as int, w);
    let wx = we.push(dir);
    assert forall|i: int| 0 <= i <= g implies #[trigger] pos_at(head, wx, i) == pos_at(
        head,
        we,
        i,
    ) by {
        assert(wx.take(i) =~= we.take(i));
    }
    crate::paths::lemma_pos_at_full(head, we);
    crate::paths::lemma_pos_at_full(head, wx);
    crate::paths::lemma_walk_push(head, we, dir);
    assert(wx.take(wx.len() as int) =~= wx);
    assert(pos_at(head, wx, (g + 1) as int) == q);
    assert forall|i: int| 0 <= i <= g implies #[trigger] pos_at(head, wx, i) != q
        && nodes1[spec_idx(pos_at(head, wx, i))].cost.g_cost <= i by {
        if i == 0 {
            crate::paths::lemma_pos_at_zero(head, we);
        }
        assert(pos_at(head, we, i).spec_in_bounds());
        assert(nodes0[spec_idx(pos_at(head, we, i))].cost.g_cost <= i);
        if pos_at(head, we, i) == q {
            assert(nodes0[spec_idx(q)].cost.g_cost <= i <= g);
            assert(false);
        }
        assert(nodes1[spec_idx(pos_at(head, we, i))] == nodes0[spec_idx(pos_at(head, we, i))]);
    }
    assert(reach_path_ok(body, head, food, nodes1, q, (g + 1) as int, wx));
    lemma_distinct_bound(body, head, food, nodes1, q, (g + 1) as int, wx);
    assert(g + 1 < 400);
    assert(elem_ok(body, head, food, nodes1, x));
    // all frontier entries
    assert forall|k: int| 0 <= k < virt1.len() implies elem_ok(
        body,
        head,
        food,
        nodes1,
        #[trigger] virt1[k],
    ) by {
        if k < hb.len() {
            assert(virt1[k] == virt0[k]);
            assert(elem_ok(body, head, food, nodes0, virt0[k]));
            lemma_elem_ok_mono(body, head, food, nodes0, nodes1, virt0[k]);
        } else if k == hb.len() {
            assert(virt1[k] == x);
        } else {
            assert(virt1[k] == e);
            lemma_elem_ok_mono(body, head, food, nodes0, nodes1, e);
        }
    }
    // every reached cell is covered
    assert forall|p: Pos|
        p.spec_in_bounds() && (#[trigger] nodes1[spec_idx(p)]).cost.g_cost < u32::MAX implies (
    covers(virt1, p, nodes1[spec_idx(p)].cost.g_cost) || (expanded.contains_key(p) && expanded[p]
        <= nodes1[spec_idx(p)].cost.g_cost)) by {
        if p == q {
            assert(virt1[hb.len() as int] == x);
            assert(covers(virt1, p, nodes1[spec_idx(p)].cost.g_cost));
        } else {
            assert(nodes1[spec_idx(p)] == nodes0[spec_idx(p)]);
            if covers(virt0, p, nodes0[spec_idx(p)].cost.g_cost) {
                let k = choose|k: int|
                    0 <= k < virt0.len() && (#[trigger] virt0[k]).pos == p
                        && virt0[k].node.cost.g_cost == nodes0[spec_idx(p)].cost.g_cost;
                if k < hb.len() {
                    assert(virt1[k] == virt0[k]);
                } else {
                    assert(virt0[k] == e);
                    assert(virt1[hb.len() as int + 1] == e);
                }
                assert(covers(virt1, p, nodes1[spec_idx(p)].cost.g_cost));
            }
        }
    }
    // expanded cells
    assert forall|p: Pos| #[trigger] expanded.contains_key(p) implies expanded_ok(
        body,
        head,
        food,
        nodes1,
        expanded[p],
        p,
    ) by {
        assert(expanded_ok(body, head, food, nodes0, expanded[p], p));
        assert forall|d: Dir| (#[trigger] p.spec_in_direction(d)).spec_in_bounds() implies ((food
            != head ==> p.spec_in_direction(d) != food) && (body.contains(p.spec_in_direction(d))
            || nodes1[spec_idx(p.spec_in_direction(d))].cost.g_cost <= expanded[p] + 1)) by {
            assert(nodes1[spec_idx(p.spec_in_direction(d))].cost.g_cost <= nodes0[spec_idx(
                p.spec_in_direction(d),
            )].cost.g_cost);
        }
    }
}

/// The invariant survives the end of an expansion: the popped entry leaves
/// the (virtual) frontier for good, and where its g cost still matches the
/// board, its cell is recorded as fully expanded.
proof fn lemma_inv_close(
    body: Seq<Pos>,
    head: Pos,
    food: Pos,
    nodes: Seq<Node>,
    hb: Seq<HeapElem>,
    e: HeapElem,
    expanded: Map<Pos, int>,
)
    requires
        search_inv(body, head, food, nodes, hb.push(e), expanded),
        forall|d: Dir| #[trigger] processed(body, head, food, nodes, e.pos, e.node.cost.g_cost, d),
    ensures
        e.node.cost.g_cost == nodes[spec_idx(e.pos)].cost.g_cost ==> search_inv(
            body,
            head,
            food,
            nodes,
            hb,
            expanded.insert(e.pos, e.node.cost.g_cost as int),
        ),
        e.node.cost.g_cost != nodes[spec_idx(e.pos)].cost.g_cost ==> search_inv(
            body,
            head,
            food,
            nodes,
            hb,
            expanded,
        ),
{
    let virt0 = hb.push(e);
    assert(virt0[hb.len() as int] == e);
    assert(elem_ok(body, head, food, nodes, e));
    assert forall|k: int| 0 <= k < hb.len() implies elem_ok(
        body,
        head,
        food,
        nodes,
        #[trigger] hb[k],
    ) by {
        assert(hb[k] == virt0[k]);
    }
    if e.node.cost.g_cost == nodes[spec_idx(e.pos)].cost.g_cost {
        let exp1 = expanded.insert(e.pos, e.node.cost.g_cost as int);
        assert(expanded_ok(body, head, food, nodes, e.node.cost.g_cost as int, e.pos)) by {
            assert forall|d: Dir|
                (#[trigger] e.pos.spec_in_direction(d)).spec_in_bounds() implies ((food != head
                ==> e.pos.spec_in_direction(d) != food) && (body.contains(
                e.pos.spec_in_direction(d),
            ) || nodes[spec_idx(e.pos.spec_in_direction(d))].cost.g_cost <= e.node.cost.g_cost
                + 1)) by {
                assert(processed(body, head, food, nodes, e.pos, e.node.cost.g_cost, d));
            }
        }
        assert forall|p: Pos| #[trigger] exp1.contains_key(p) implies expanded_ok(
            body,
            head,
            food,
            nodes,
            exp1[p],
            p,
        ) by {
            if p != e.pos {
                assert(expanded.contains_key(p));
                assert(expanded_ok(body, head, food, nodes, expanded[p], p));
            }
        }
        assert forall|p: Pos|
            p.spec_in_bounds() && (#[trigger] nodes[spec_idx(p)]).cost.g_cost < u32::MAX implies (
        covers(hb, p, nodes[spec_idx(p)].cost.g_cost) || (exp1.contains_key(p) && exp1[p]
            <= nodes[spec_idx(p)].cost.g_cost)) by {
            if covers(virt0, p, nodes[spec_idx(p)].cost.g_cost) {
                let k = choose|k: int|
                    0 <= k < virt0.len() && (#[trigger] virt0[k]).pos == p
                        && virt0[k].node.cost.g_cost == nodes[spec_idx(p)].cost.g_cost;
                if k < hb.len() {
                    assert(hb[k] == virt0[k]);
                    assert(covers(hb, p, nodes[spec_idx(p)].cost.g_cost));
                } else {
                    assert(virt0[k] == e);
                }
            }
        }
    } else {
        assert forall|p: Pos|
            p.spec_in_bounds() && (#[trigger] nodes[spec_idx(p)]).cost.g_cost < u32::MAX implies (
        covers(hb, p, nodes[spec_idx(p)].cost.g_cost) || (expanded.contains_key(p) && expanded[p]
            <= nodes[spec_idx(p)].cost.g_cost)) by {
            if covers(virt0, p, nodes[spec_idx(p)].cost.g_cost) {
                let k = choose|k: int|
                    0 <= k < virt0.len() && (#[trigger] virt0[k]).pos == p
                        && virt0[k].node.cost.g_cost == nodes[spec_idx(p)].cost.g_cost;
                if k < hb.len() {
                    assert(hb[k] == virt0[k]);
                    assert(covers(hb, p, nodes[spec_idx(p)].cost.g_cost));
                } else {
                    assert(virt0[k] == e);
                    assert(false);
                }
            }
        }
    }
}

/// During path reconstruction: `fwd` is a walk from `cur` that stays on the
/// board, enters neither a body cell nor the target before its end, and ends
/// on the target.
spec fn partial_path_ok(body: Seq<Pos>, cur: Pos, food: Pos, fwd: Seq<Dir>) -> bool {
    &&& fwd.len() >= 1
    &&& forall|j: int| 1 <= j <= fwd.len() ==> (#[trigger] pos_at(cur, fwd, j)).spec_in_bounds()
    &&& forall|j: int|
        1 <= j < fwd.len() ==> !body.contains(#[trigger] pos_at(cur, fwd, j)) && pos_at(
            cur,
            fwd,
            j,
        ) != food
    &&& pos_at(cur, fwd, fwd.len() as int) == food
}

/// The position of each direction in the expansion order Left, Right, Up,
/// Down.
spec fn dir_index(d: Dir) -> int {
    match d {
        Dir::Left => 0,
        Dir::Right => 1,
        Dir::Up => 2,
        Dir::Down => 3,
    }
}

/// What holds of a neighbour of `from` once the expansion step for direction
/// `d` has completed without ending the search.
spec fn processed(
    body: Seq<Pos>,
    head: Pos,
    food: Pos,
    nodes: Seq<Node>,
    from: Pos,
    g: u32,
    d: Dir,
) -> bool {
    ({
        let q = from.spec_in_direction(d);
        q.spec_in_bounds() ==> ((food != head ==> q != food) && (body.contains(q) || nodes[spec_idx(q)].cost.g_cost <= g + 1))
    })
}

/// Walks the recorded back pointers from the cell `pos` that reached the
/// target in direction `dir`, and returns the move sequence from the head to
/// the target in head-to-target order.
#[verifier::loop_isolation(false)]
fn reconstruct(
    board: &Board,
    pos: Pos,
    dir: Dir,
    Ghost(body): Ghost<Seq<Pos>>,
    Ghost(head): Ghost<Pos>,
    Ghost(food): Ghost<Pos>,
    Ghost(gcap): Ghost<u32>,
) -> (path: Vec<Dir>)
    requires
        board.wf(),
        head.spec_in_bounds(),
        food.spec_in_bounds(),
        board.nodes@[spec_idx(head)].cost.g_cost == 0,
        board.nodes@[spec_idx(head)].dir_back is None,
        forall|p: Pos| p.spec_in_bounds() ==> #[trigger] back_ok(body, head, food, board.nodes@, p),
        pos.spec_in_bounds(),
        pos.spec_in_direction(dir) == food,
        pos == head || board.nodes@[spec_idx(pos)].dir_back is Some,
        board.nodes@[spec_idx(pos)].cost.g_cost <= gcap,
        gcap < 400,
    ensures
        1 <= path@.len() <= gcap + 1,
        path_ok(body, head, food, path@),
{
    let mut rev: Vec<Dir> = Vec::new();
    rev.push(dir);
    let mut cur = pos;
    proof {
        assert(rev_moves(rev@) =~= seq![dir]);
        assert(seq![dir].take(1) =~= seq![dir]);
        assert(seq![dir].drop_last() =~= Seq::<Dir>::empty());
        assert(seq![dir].last() == dir);
        assert(crate::paths::walk_from(cur, Seq::<Dir>::empty()) == cur);
        assert(crate::paths::walk_from(cur, seq![dir]) == cur.spec_in_direction(dir));
        assert(pos_at(cur, seq![dir], 1) == food);
        assert(partial_path_ok(body, cur, food, rev_moves(rev@)));
        if pos != head {
            assert(back_ok(body, head, food, board.nodes@, pos));
        }
    }
    while board.get(cur).dir_back.is_some()
        invariant
            cur.spec_in_bounds(),
            rev@.len() >= 1,
            partial_path_ok(body, cur, food, rev_moves(rev@)),
            cur == head || (board.nodes@[spec_idx(cur)].dir_back is Some && !body.contains(cur)
                && cur != food),
            rev@.len() + board.nodes@[spec_idx(cur)].cost.g_cost <= 1 + gcap,
        decreases board.nodes@[spec_idx(cur)].cost.g_cost,
    {
        let d = board.get(cur).dir_back.unwrap();
        let ghost rev0 = rev@;
        rev.push(d.opposite());
        let stepped = cur.in_direction(d);
        proof {
            assert(back_ok(body, head, food, board.nodes@, cur));
            crate::components::lemma_step_opposite(cur, d);
            crate::paths::lemma_rev_push(rev0, d.spec_opposite());
            assert(rev@ == rev0.push(d.spec_opposite()));
            let fwd0 = rev_moves(rev0);
            let fwd1 = rev_moves(rev@);
            assert(fwd1 == seq![d.spec_opposite()] + fwd0);
            assert(stepped.spec_in_direction(d.spec_opposite()) == cur);
            assert forall|j: int| 1 <= j <= fwd1.len() implies (#[trigger] pos_at(
                stepped,
                fwd1,
                j,
            )) == if j == 1 {
                cur
            } else {
                pos_at(cur, fwd0, j - 1)
            } by {
                crate::paths::lemma_pos_at_cons(stepped, d.spec_opposite(), fwd0, j);
                if j == 1 {
                    crate::paths::lemma_pos_at_zero(cur, fwd0);
                }
            }
            assert(partial_path_ok(body, stepped, food, fwd1));
            if stepped != head {
                assert(back_ok(body, head, food, board.nodes@, stepped));
            }
        }
        cur = stepped;
    }
    let mut path_found: Vec<Dir> = Vec::new();
    let mut t: usize = rev.len();
    while t > 0
        invariant
            t <= rev@.len(),
            path_found@ == rev_moves(rev@).take(rev@.len() - t),
        decreases t,
    {
        t = t - 1;
        path_found.push(rev[t]);
        proof {
            assert(rev_moves(rev@).take(rev@.len() - t) =~= rev_moves(rev@).take(
                rev@.len() - (t + 1),
            ).push(rev@[t as int]));
        }
    }
    proof {
        assert(path_found@ =~= rev_moves(rev@));
        assert(cur == head);
        assert(path_ok(body, head, food, path_found@));
    }
    path_found
}

/// A* shortest-path search from the snake's head to `food`. The snake's head
/// is the first element of `snake`; every cell of `snake` is impassable.
///
/// Returns the move-by-move shortest path from the head to `food`: a walk of
/// minimal length among all walks that stay on the board and avoid the body.
/// Returns an empty sequence exactly when `food` is the head itself or no
/// such walk exists.
#[verifier::loop_isolation(false)]
#[verifier::rlimit(100)]
pub fn find_path(snake: Vec<Pos>, food: Pos) -> (path: Vec<Dir>)
    requires
        snake@.len() >= 1,
        forall|i: int| 0 <= i < snake@.len() ==> (#[trigger] snake@[i]).spec_in_bounds(),
        food.spec_in_bounds(),
    ensures
        path@.len() > 0 ==> path_ok(snake@, snake@[0], food, path@),
        forall|ms: Seq<Dir>|
            path@.len() > 0 && #[trigger] path_ok(snake@, snake@[0], food, ms) ==> path@.len()
                <= ms.len(),
        path@.len() == 0 ==> (food == snake@[0] || forall|ms: Seq<Dir>|
            !(#[trigger] path_ok(snake@, snake@[0], food, ms))),
        food == snake@[0] ==> path@.len() == 0,
{
    let head = snake[0];
    let ghost body = snake@;
    let mut board = Board::new(&snake, food);
    let ghost fresh = board.nodes@;
    let hn = board.get(head);
    board.set(head, Node { kind: hn.kind, cost: Cost::compute(0, head, food), dir_back: None });
    let seeded = board.get(head);
    let mut heap: Vec<HeapElem> = Vec::new();
    heap.push(HeapElem { node: seeded, pos: head });
    let ghost mut expanded: Map<Pos, int> = Map::empty();
    proof {
        lemma_update_frame(fresh, head, board.nodes@[spec_idx(head)]);
        lemma_init_inv(body, head, food, board.nodes@, heap@[0]);
        assert(heap@ =~= seq![heap@[0]]);
    }
    while heap.len() > 0
        invariant
            search_inv(body, head, food, board.nodes@, heap@, expanded),
        decreases sum_g(board.nodes@), heap@.len(),
    {
        // Pop the lowest-cost entry; the invariant is maintained against the
        // frontier with the entry virtually still present, until the entry's
        // expansion is complete.
        let ghost pre_heap = heap@;
        let e = pop_min(&mut heap);
        let node = e.node;
        let pos = e.pos;
        let ghost heap0 = heap@;
        let ghost sum0 = sum_g(board.nodes@);
        proof {
            let i = choose|i: int|
                0 <= i < pre_heap.len() && e == pre_heap[i] && heap@ == pre_heap.remove(i);
            lemma_inv_after_pop(body, head, food, board.nodes@, pre_heap, i, expanded);
            assert(pre_heap.remove(i).push(pre_heap[i]) =~= heap@.push(e));
            assert forall|k: int|
                0 <= k < heap@.len() implies node.cost.f_cost <= (
            #[trigger] heap@[k]).node.cost.f_cost by {
                if k < i {
                    assert(heap@[k] == pre_heap[k]);
                } else {
                    assert(heap@[k] == pre_heap[k + 1]);
                }
            }
        }
        let mut di: usize = 0;
        while di < 4
            invariant
                search_inv(body, head, food, board.nodes@, heap@.push(e), expanded),
                di <= 4,
                forall|k: int|
                    0 <= k < heap@.len() ==> node.cost.f_cost <= (
                #[trigger] heap@[k]).node.cost.f_cost,
                forall|d: Dir|
                    dir_index(d) < di ==> #[trigger] processed(
                        body,
                        head,
                        food,
                        board.nodes@,
                        pos,
                        node.cost.g_cost,
                        d,
                    ),
                sum_g(board.nodes@) <= sum0,
                sum_g(board.nodes@) == sum0 ==> heap@ == heap0,
            decreases 4 - di,
        {
            // Look in each direction, in the order Left, Right, Up, Down.
            let dir = if di == 0 {
                Dir::Left
            } else if di == 1 {
                Dir::Right
            } else if di == 2 {
                Dir::Up
            } else {
                Dir::Down
            };
            proof {
                assert(elem_ok(body, head, food, board.nodes@, heap@.push(e)[heap@.len() as int]));
            }
            let next_pos = pos.in_direction(dir);
            // Skip the neighbour if it is out of bounds, part of the snake's
            // body, or already reached by a path no longer than this one.
            if next_pos.in_bounds() {
                let next = board.get(next_pos);
                if next.kind != NodeKind::Snake {
                    if next.cost.g_cost > node.cost.g_cost + 1 {
                        if next.kind == NodeKind::Food {
                            // Path found: next_pos is the target. Reconstruct
                            // by walking the back pointers to the head.
                            proof {
                                assert(next_pos == food);
                                assert(food != head);
                                assert forall|ms: Seq<Dir>|
                                    #[trigger] path_ok(body, head, food, ms) implies node.cost.g_cost
                                    + 1 <= ms.len() by {
                                    lemma_lower_bound(
                                        body,
                                        head,
                                        food,
                                        board.nodes@,
                                        heap@.push(e),
                                        expanded,
                                        node.cost,
                                        ms,
                                    );
                                    assert(manhattan(pos, food) == 1);
                                }
                            }
                            let path_found = reconstruct(
                                &board,
                                pos,
                                dir,
                                Ghost(body),
                                Ghost(head),
                                Ghost(food),
                                Ghost(node.cost.g_cost),
                            );
                            return path_found;
                        } else {
                            // Record the shorter route to the neighbour with
                            // its cost and the direction back towards the
                            // head, and add it to the frontier.
                            let ghost nodes0 = board.nodes@;
                            let ghost hpre = heap@;
                            let newcost = Cost::compute(node.cost.g_cost + 1, next_pos, food);
                            let newnode = Node {
                                kind: next.kind,
                                cost: newcost,
                                dir_back: Some(dir.opposite()),
                            };
                            board.set(next_pos, newnode);
                            heap.push(HeapElem { node: newnode, pos: next_pos });
                            proof {
                                lemma_inv_relax(
                                    body,
                                    head,
                                    food,
                                    nodes0,
                                    hpre,
                                    e,
                                    expanded,
                                    dir,
                                    newnode,
                                );
                                assert(heap@ =~= hpre.push(
                                    HeapElem { node: newnode, pos: next_pos },
                                ));
                                lemma_sum_update(nodes0, spec_idx(next_pos), newnode);
                                assert forall|d: Dir|
                                    dir_index(d) < di + 1 implies #[trigger] processed(
                                    body,
                                    head,
                                    food,
                                    board.nodes@,
                                    pos,
                                    node.cost.g_cost,
                                    d,
                                ) by {
                                    lemma_update_frame(nodes0, next_pos, newnode);
                                    if dir_index(d) < di {
                                        assert(processed(
                                            body,
                                            head,
                                            food,
                                            nodes0,
                                            pos,
                                            node.cost.g_cost,
                                            d,
                                        ));
                                    }
                                }
                                assert forall|k: int|
                                    0 <= k < heap@.len() implies node.cost.f_cost <= (
                                #[trigger] heap@[k]).node.cost.f_cost by {
                                    if k < heap@.len() - 1 {
                                        assert(heap@[k] == heap@.drop_last()[k]);
                                    } else {
                                        assert(manhattan(pos, food) <= manhattan(next_pos, food)
                                            + 1);
                                    }
                                }
                            }
                        }
                    } else {
                        proof {
                            assert forall|d: Dir|
                                dir_index(d) < di + 1 implies #[trigger] processed(
                                body,
                                head,
                                food,
                                board.nodes@,
                                pos,
                                node.cost.g_cost,
                                d,
                            ) by {
                                if dir_index(d) == di {
                                    if food != head && next_pos == food {
                                        assert(board.nodes@[spec_idx(food)].cost.g_cost
                                            == u32::MAX);
                                        assert(false);
                                    }
                                }
                            }
                        }
                    }
                } else {
                    proof {
                        assert(kind_at(body, food, next_pos) == NodeKind::Snake);
                        assert forall|d: Dir|
                            dir_index(d) < di + 1 implies #[trigger] processed(
                            body,
                            head,
                            food,
                            board.nodes@,
                            pos,
                            node.cost.g_cost,
                            d,
                        ) by {}
                    }
                }
            } else {
                proof {
                    assert forall|d: Dir|
                        dir_index(d) < di + 1 implies #[trigger] processed(
                        body,
                        head,
                        food,
                        board.nodes@,
                        pos,
                        node.cost.g_cost,
                        d,
                    ) by {}
                }
            }
            di = di + 1;
        }
        proof {
            // The entry is now fully expanded: where its cost still matches
            // the board, record its cell as expanded so that the certificate
            // argument can climb past it.
            lemma_inv_close(body, head, food, board.nodes@, heap@, e, expanded);
            if node.cost.g_cost == board.nodes@[spec_idx(pos)].cost.g_cost {
                expanded = expanded.insert(pos, node.cost.g_cost as int);
            }
        }
    }
    // The frontier is exhausted: unless the target is the head itself, no
    // free walk reaches the target at all.
    proof {
        if food != head {
            assert forall|ms: Seq<Dir>| !(#[trigger] path_ok(body, head, food, ms)) by {
                if path_ok(body, head, food, ms) {
                    crate::paths::lemma_pos_at_zero(head, ms);
                    lemma_cert(body, head, food, board.nodes@, heap@, expanded, ms, 0);
                }
            }
        }
    }
    Vec::new()
}

} // verus!
