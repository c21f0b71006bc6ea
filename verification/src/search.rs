use vstd::prelude::*;
use std::collections::VecDeque;
use crate::grid::{in_map, index_to_position, lemma_cell_index_in_range, lemma_cell_index_injective, lemma_position_index_roundtrip, position_to_index};
use crate::path::{
    cell_index, connected, count_false, fill_state, first_hit, index_position, is_path, is_step, lemma_close_node,
    lemma_closed_set_contains_path, lemma_count_false_mark, lemma_discover_keeps_state, search_tree, walk,
};
use crate::path::{back_path, lemma_search_tree_reaches_src, PathFinder};
use crate::range::FindPathTarget;
use crate::vec2::{manhattan, Vec2i};

verus! {

/// Which cells have a known cost (anything but `i32::MAX`).
pub open spec fn known_cells(costs: Seq<i32>) -> Seq<bool> {
    Seq::new(costs.len(), |i: int| costs[i] != i32::MAX)
}

/// Which cells can be entered at all.
pub open spec fn passable_cells(entry_costs: Seq<Option<i32>>) -> Seq<bool> {
    Seq::new(entry_costs.len(), |i: int| entry_costs[i] is Some)
}

/// Every cell of the `size` by `size` map costs between 1 and `cap` to enter, where it can be
/// entered, and no path through all of them can overflow an `i32`.
pub open spec fn entry_costs_fit(size: int, entry_costs: Seq<Option<i32>>, cap: int) -> bool {
    &&& entry_costs.len() == size * size
    &&& 1 <= cap
    &&& size * size * cap < i32::MAX
    &&& forall|i: int|
        0 <= i < entry_costs.len() && (#[trigger] entry_costs[i]) is Some ==> 1 <= entry_costs[i]->0 <= cap
}

/// Cells `u` and `v` of a map with `size` columns are one move apart.
#[verifier::opaque]
pub open spec fn adjacent_cells(size: int, u: int, v: int) -> bool {
    manhattan(index_position(size, u), index_position(size, v)) == 1
}

/// Each cell with a known cost other than `src` was reached from the cell `backtrack` names, one
/// move away, and costs at least (with `exact`, exactly) that cell's cost plus its own entry cost.
pub open spec fn steps_back(
    size: int,
    entry_costs: Seq<Option<i32>>,
    costs: Seq<i32>,
    backtrack: Seq<usize>,
    src: int,
    exact: bool,
) -> bool {
    forall|v: int|
        #![trigger backtrack[v]]
        0 <= v < costs.len() && v != src && costs[v] != i32::MAX ==> {
            let u = backtrack[v] as int;
            &&& adjacent_cells(size, u, v)
            &&& entry_costs[v] is Some
            &&& costs[v] >= costs[u] + entry_costs[v]->0
            &&& exact ==> costs[v] == costs[u] + entry_costs[v]->0
        }
}

/// Known costs never exceed `cap` times one less than the number of cells with a known cost.
pub open spec fn costs_bounded(costs: Seq<i32>, cap: int) -> bool {
    forall|v: int|
        0 <= v < costs.len() && #[trigger] costs[v] != i32::MAX ==> costs[v] <= (costs.len() - count_false(
            known_cells(costs),
        ) - 1) * cap
}

/// A cell that has been looked at: it has a known cost, waits on no queue and is not the cell
/// being looked at now.
pub open spec fn is_closed(size: int, known: Seq<bool>, queue: Seq<Vec2i>, node: Option<Vec2i>, p: Vec2i) -> bool {
    in_map(size, p) && known[cell_index(size, p)] && !queue.contains(p) && node != Some(p)
}

/// No cell looked at reaches the target, and when the nearest cell is wanted none is nearer than
/// `min_distance`.
pub open spec fn closed_checked<T: FindPathTarget>(
    size: int,
    target: &T,
    find_nearest: bool,
    min_distance: int,
    known: Seq<bool>,
    queue: Seq<Vec2i>,
    node: Option<Vec2i>,
) -> bool {
    forall|p: Vec2i|
        #[trigger] is_closed(size, known, queue, node, p) ==> !target.target_reached(p) && (find_nearest
            ==> target.target_distance(p) >= min_distance)
}

/// What a search from `start` found, `destination`, says of the cells connected to `start`:
/// either the destination reaches the target, or no connected cell does; then, when the
/// nearest cell is wanted, the destination is a nearest connected cell and nearer than `start`,
/// and there is none only when no connected cell is nearer than `start`.
pub open spec fn search_outcome<T: FindPathTarget>(
    size: int,
    passable: Seq<bool>,
    start: Vec2i,
    target: &T,
    find_nearest: bool,
    destination: Option<usize>,
) -> bool {
    match destination {
        Some(d) => {
            let pd = index_position(size, d as int);
            &&& in_map(size, pd)
            &&& connected(size, passable, start, pd)
            &&& target.target_reached(pd) || {
                &&& find_nearest
                &&& target.target_distance(pd) < target.target_distance(start)
                &&& forall|p: Vec2i|
                    in_map(size, p) && #[trigger] connected(size, passable, start, p) ==> !target.target_reached(p)
                        && target.target_distance(pd) <= target.target_distance(p)
            }
        },
        None => forall|p: Vec2i|
            in_map(size, p) && #[trigger] connected(size, passable, start, p) ==> !target.target_reached(p) && (
            find_nearest ==> target.target_distance(start) <= target.target_distance(p)),
    }
}

/// What a search leaves behind: a search tree rooted at `start`'s cell with cost 0, whose cells
/// are each reached from a neighbour (`exact`: at exactly its cost plus the entry cost), and
/// every cell with a known cost is connected to `start` through cells that can be entered.
pub open spec fn search_results(
    size: int,
    entry_costs: Seq<Option<i32>>,
    start: Vec2i,
    costs: Seq<i32>,
    backtrack: Seq<usize>,
    exact: bool,
) -> bool {
    let src = cell_index(size, start);
    &&& costs.len() == size * size
    &&& backtrack.len() == size * size
    &&& search_tree(costs, backtrack, src)
    &&& costs[src] == 0
    &&& steps_back(size, entry_costs, costs, backtrack, src, exact)
    &&& forall|p: Vec2i|
        in_map(size, p) && #[trigger] costs[cell_index(size, p)] != i32::MAX ==> connected(
            size,
            passable_cells(entry_costs),
            start,
            p,
        )
}

/// The state of a breadth-first search between steps.
pub open spec fn bfs_state(
    size: int,
    entry_costs: Seq<Option<i32>>,
    cap: int,
    start: Vec2i,
    costs: Seq<i32>,
    backtrack: Seq<usize>,
    queue: Seq<Vec2i>,
    node: Option<Vec2i>,
) -> bool {
    let src = cell_index(size, start);
    &&& costs.len() == size * size
    &&& search_tree(costs, backtrack, src)
    &&& costs[src] == 0
    &&& steps_back(size, entry_costs, costs, backtrack, src, true)
    &&& costs_bounded(costs, cap)
    &&& fill_state(size, passable_cells(entry_costs), start, known_cells(costs), queue, node)
}

proof fn lemma_count_false_le(s: Seq<bool>, i: int)
    requires
        0 <= i < s.len(),
        s[i],
    ensures
        count_false(s) < s.len(),
    decreases s.len(),
{
    if i < s.len() - 1 {
        lemma_count_false_le(s.drop_last(), i);
    } else {
        lemma_count_false_at_most(s.drop_last());
    }
}

proof fn lemma_count_false_at_most(s: Seq<bool>)
    ensures
        count_false(s) <= s.len(),
    decreases s.len(),
{
    if s.len() > 0 {
        lemma_count_false_at_most(s.drop_last());
    }
}

/// Giving an unknown cell a cost marks it known.
proof fn lemma_known_after_set(costs: Seq<i32>, i: int, x: i32)
    requires
        0 <= i < costs.len(),
        x != i32::MAX,
    ensures
        known_cells(costs.update(i, x)) == known_cells(costs).update(i, true),
{
    assert(known_cells(costs.update(i, x)) =~= known_cells(costs).update(i, true));
}


/// Giving the unknown cell `index` the cost of the known cell `node_index` plus its entry cost,
/// one move away, with `node_index` as the cell it is reached from, keeps the search tree.
#[verifier::spinoff_prover]
proof fn lemma_tree_extended(
    s: int,
    entry_costs: Seq<Option<i32>>,
    src: int,
    c0: Seq<i32>,
    b0: Seq<usize>,
    node_index: int,
    index: int,
    c1: Seq<i32>,
    b1: Seq<usize>,
)
    requires
        search_tree(c0, b0, src),
        steps_back(s, entry_costs, c0, b0, src, true),
        0 <= src < c0.len(),
        c0.len() <= usize::MAX,
        c0[src] == 0,
        0 <= node_index < c0.len(),
        0 <= index < c0.len(),
        c0[node_index] != i32::MAX,
        c0[index] == i32::MAX,
        entry_costs[index] is Some,
        entry_costs[index]->0 >= 1,
        adjacent_cells(s, node_index, index),
        c0[node_index] + entry_costs[index]->0 < i32::MAX,
        c1 == c0.update(index, (c0[node_index] + entry_costs[index]->0) as i32),
        b1 == b0.update(index, node_index as usize),
    ensures
        search_tree(c1, b1, src),
        steps_back(s, entry_costs, c1, b1, src, true),
        c1[src] == 0,
{
    assert(index != src);
    assert(node_index != index);
    assert forall|v: int| #![trigger b1[v]] 0 <= v < c1.len() && v != src && c1[v] != i32::MAX implies c1[b1[v] as int]
        < c1[v] by {
        if v != index {
            assert(c0[v] != i32::MAX);
            assert(c0[b0[v] as int] < c0[v]);
            assert(b0[v] as int != index);
            assert(b1[v] == b0[v]);
        } else {
            assert(b1[v] as int == node_index);
        }
    }
    assert forall|v: int| #![trigger b1[v]] 0 <= v < c1.len() && v != src && c1[v] != i32::MAX implies {
        let u = b1[v] as int;
        &&& adjacent_cells(s, u, v)
        &&& entry_costs[v] is Some
        &&& c1[v] >= c1[u] + entry_costs[v]->0
        &&& true ==> c1[v] == c1[u] + entry_costs[v]->0
    } by {
        if v != index {
            assert(c0[v] != i32::MAX);
            assert(c0[b0[v] as int] < c0[v]);
            assert(b0[v] as int != index);
            assert(b1[v] == b0[v]);
        } else {
            assert(b1[v] as int == node_index);
        }
    }
}

/// Giving the unknown cell `index` a cost at most `cap` above a known cost keeps the bound on
/// known costs.
proof fn lemma_bound_extended(c0: Seq<i32>, cap: int, node_index: int, index: int, c1: Seq<i32>)
    requires
        costs_bounded(c0, cap),
        cap >= 1,
        0 <= node_index < c0.len(),
        0 <= index < c0.len(),
        c0[node_index] != i32::MAX,
        c0[index] == i32::MAX,
        c1 == c0.update(index, c1[index]),
        c1[index] != i32::MAX,
        c1[index] <= c0[node_index] + cap,
    ensures
        costs_bounded(c1, cap),
        known_cells(c1) == known_cells(c0).update(index, true),
        count_false(known_cells(c1)) + 1 == count_false(known_cells(c0)),
{
    let kn = known_cells(c0);
    let cf = count_false(kn);
    let n = c0.len() as int;
    lemma_known_after_set(c0, index, c1[index]);
    lemma_count_false_mark(kn, index);
    let cf1 = count_false(known_cells(c1));
    assert(kn[node_index]);
    assert(c0[node_index] <= (n - cf - 1) * cap);
    assert((n - cf - 1) * cap + cap == (n - cf1 - 1) * cap) by (nonlinear_arith)
        requires
            cf1 + 1 == cf,
    ;
    assert((n - cf - 1) * cap <= (n - cf1 - 1) * cap) by (nonlinear_arith)
        requires
            cf1 + 1 == cf,
            cap >= 1,
    ;
    assert forall|v: int| 0 <= v < c1.len() && #[trigger] c1[v] != i32::MAX implies c1[v] <= (c1.len() - cf1 - 1)
        * cap by {
        if v != index {
            assert(c0[v] != i32::MAX);
        }
    }
}

/// Giving `candidate` the cost of `node` plus its entry cost, with `node` as the cell it is
/// reached from, and queuing it keeps the state of a breadth-first search.
proof fn lemma_bfs_discovered(
    s: int,
    entry_costs: Seq<Option<i32>>,
    cap: int,
    start: Vec2i,
    c0: Seq<i32>,
    b0: Seq<usize>,
    q0: Seq<Vec2i>,
    node: Vec2i,
    candidate: Vec2i,
    c1: Seq<i32>,
    b1: Seq<usize>,
    q1: Seq<Vec2i>,
)
    requires
        0 < s,
        s * s <= usize::MAX,
        in_map(s, start),
        entry_costs_fit(s, entry_costs, cap),
        bfs_state(s, entry_costs, cap, start, c0, b0, q0, Some(node)),
        in_map(s, node),
        in_map(s, candidate),
        c0[cell_index(s, node)] != i32::MAX,
        c0[cell_index(s, candidate)] == i32::MAX,
        entry_costs[cell_index(s, candidate)] is Some,
        manhattan(node, candidate) == 1,
        c1 == c0.update(
            cell_index(s, candidate),
            (c0[cell_index(s, node)] + entry_costs[cell_index(s, candidate)]->0) as i32,
        ),
        c0[cell_index(s, node)] + entry_costs[cell_index(s, candidate)]->0 < i32::MAX,
        b1 == b0.update(cell_index(s, candidate), cell_index(s, node) as usize),
        q1 == q0.push(candidate),
    ensures
        bfs_state(s, entry_costs, cap, start, c1, b1, q1, Some(node)),
        known_cells(c1) == known_cells(c0).update(cell_index(s, candidate), true),
        count_false(known_cells(c1)) + 1 == count_false(known_cells(c0)),
{
    let index = cell_index(s, candidate);
    let node_index = cell_index(s, node);
    let src = cell_index(s, start);
    lemma_cell_index_in_range(s, candidate);
    lemma_cell_index_in_range(s, node);
    lemma_cell_index_in_range(s, start);
    assert(known_cells(c0)[node_index]);
    lemma_position_index_roundtrip(node.x as int, node.y as int, s);
    lemma_position_index_roundtrip(candidate.x as int, candidate.y as int, s);
    assert(index_position(s, node_index) == node);
    assert(index_position(s, index) == candidate);
    assert(adjacent_cells(s, node_index, index)) by {
        reveal(adjacent_cells);
    }
    lemma_tree_extended(s, entry_costs, src, c0, b0, node_index, index, c1, b1);
    lemma_bound_extended(c0, cap, node_index, index, c1);
    lemma_discover_keeps_state(s, passable_cells(entry_costs), start, node, candidate, known_cells(c0), q0, known_cells(c1), q1);
}

/// Looks at `candidate`, one move from `node`: when it lies on the map, has no cost yet and can
/// be entered, it costs `node`'s cost plus its entry cost, is reached from `node` and waits on
/// the queue.
/// The costs, back steps and queue of a breadth-first search.
pub type BfsCells = (Seq<i32>, Seq<usize>, Seq<Vec2i>);

/// What looking at `cand`, one move from `node`, does to a breadth-first search: a cell on the
/// map with no cost yet that can be entered costs `node`'s cost plus its entry cost, has `node`
/// as its back step, and joins the end of the queue.
pub open spec fn bfs_discovered(size: int, node: Vec2i, cand: Vec2i, entry_costs: Seq<Option<i32>>, c: BfsCells) -> BfsCells {
    let index = cell_index(size, cand);
    if !in_map(size, cand) || c.0[index] != i32::MAX {
        c
    } else {
        match entry_costs[index] {
            None => c,
            Some(cost) => (
                c.0.update(index, (c.0[cell_index(size, node)] + cost) as i32),
                c.1.update(index, cell_index(size, node) as usize),
                c.2.push(cand),
            ),
        }
    }
}

/// A breadth-first search between looks: its cells, the distance to the target of the nearest
/// cell seen, the destination so far, and whether it has ended.
pub struct BfsRun {
    pub cells: BfsCells,
    pub min_distance: int,
    pub destination: Option<usize>,
    pub done: bool,
}

/// One look of a breadth-first search: with the queue empty the search ends; else it takes the
/// first cell of the queue; a cell that reaches `target`, or (with `find_nearest`) is nearer than
/// any before, becomes the destination; a cell that reaches `target` ends the search; else its
/// four neighbours (right, left, below, above) are looked at.
pub open spec fn bfs_step<T: FindPathTarget>(
    size: int,
    target: &T,
    find_nearest: bool,
    entry_costs: Seq<Option<i32>>,
    r: BfsRun,
) -> BfsRun {
    if r.done {
        r
    } else if r.cells.2.len() == 0 {
        BfsRun { done: true, ..r }
    } else {
        let node = r.cells.2[0];
        let queue = r.cells.2.remove(0);
        let reached = target.target_reached(node);
        let dist = target.target_distance(node);
        let chosen = reached || (r.min_distance > dist && find_nearest);
        let min_distance = if chosen { dist } else { r.min_distance };
        let destination = if chosen { Some(cell_index(size, node) as usize) } else { r.destination };
        if reached {
            BfsRun { cells: (r.cells.0, r.cells.1, queue), min_distance, destination, done: true }
        } else {
            let c0 = (r.cells.0, r.cells.1, queue);
            let c1 = bfs_discovered(size, node, Vec2i { x: (node.x + 1) as i32, y: node.y }, entry_costs, c0);
            let c2 = bfs_discovered(size, node, Vec2i { x: (node.x - 1) as i32, y: node.y }, entry_costs, c1);
            let c3 = bfs_discovered(size, node, Vec2i { x: node.x, y: (node.y + 1) as i32 }, entry_costs, c2);
            let c4 = bfs_discovered(size, node, Vec2i { x: node.x, y: (node.y - 1) as i32 }, entry_costs, c3);
            BfsRun { cells: c4, min_distance, destination, done: false }
        }
    }
}

/// A breadth-first search from `start` before its first look: only `start` is known, at cost 0,
/// and waits on the queue.
pub open spec fn bfs_begin<T: FindPathTarget>(size: int, start: Vec2i, target: &T) -> BfsRun {
    let src = cell_index(size, start);
    let n = (size * size) as nat;
    BfsRun {
        cells: (
            Seq::new(n, |v: int| if v == src { 0i32 } else { i32::MAX }),
            Seq::new(n, |v: int| v as usize),
            seq![start],
        ),
        min_distance: target.target_distance(start),
        destination: None,
        done: false,
    }
}

/// A breadth-first search after `k` looks.
pub open spec fn bfs_after<T: FindPathTarget>(
    size: int,
    start: Vec2i,
    target: &T,
    find_nearest: bool,
    entry_costs: Seq<Option<i32>>,
    k: nat,
) -> BfsRun
    decreases k,
{
    if k == 0 {
        bfs_begin(size, start, target)
    } else {
        bfs_step(size, target, find_nearest, entry_costs, bfs_after(size, start, target, find_nearest, entry_costs, (k - 1) as nat))
    }
}

/// Where a breadth-first search ends: its state once it has ended.
pub open spec fn bfs_run<T: FindPathTarget>(
    size: int,
    start: Vec2i,
    target: &T,
    find_nearest: bool,
    entry_costs: Seq<Option<i32>>,
) -> BfsRun {
    bfs_after(
        size,
        start,
        target,
        find_nearest,
        entry_costs,
        choose|k: nat| #[trigger] bfs_after(size, start, target, find_nearest, entry_costs, k).done,
    )
}

/// Whether the search's variables hold what the run `r` says.
pub open spec fn bfs_holds(
    r: BfsRun,
    costs: Seq<i32>,
    backtrack: Seq<usize>,
    queue: Seq<Vec2i>,
    min_distance: int,
    destination: Option<usize>,
) -> bool {
    &&& r.cells.0 == costs
    &&& r.cells.1 == backtrack
    &&& r.cells.2 == queue
    &&& r.min_distance == min_distance
    &&& r.destination == destination
}

/// Once ended, a breadth-first search stays as it is.
proof fn lemma_bfs_stays<T: FindPathTarget>(
    size: int,
    start: Vec2i,
    target: &T,
    find_nearest: bool,
    entry_costs: Seq<Option<i32>>,
    k: nat,
    j: nat,
)
    requires
        bfs_after(size, start, target, find_nearest, entry_costs, k).done,
        k <= j,
    ensures
        bfs_after(size, start, target, find_nearest, entry_costs, j) == bfs_after(size, start, target, find_nearest, entry_costs, k),
    decreases j - k,
{
    if j > k {
        lemma_bfs_stays(size, start, target, find_nearest, entry_costs, k, (j - 1) as nat);
    }
}

/// A search that has ended after `k` looks is where the search ends.
proof fn lemma_bfs_run<T: FindPathTarget>(
    size: int,
    start: Vec2i,
    target: &T,
    find_nearest: bool,
    entry_costs: Seq<Option<i32>>,
    k: nat,
)
    requires
        bfs_after(size, start, target, find_nearest, entry_costs, k).done,
    ensures
        bfs_run(size, start, target, find_nearest, entry_costs) == bfs_after(size, start, target, find_nearest, entry_costs, k),
{
    let k2 = choose|k: nat| #[trigger] bfs_after(size, start, target, find_nearest, entry_costs, k).done;
    assert(bfs_after(size, start, target, find_nearest, entry_costs, k2).done);
    if k <= k2 {
        lemma_bfs_stays(size, start, target, find_nearest, entry_costs, k, k2);
    } else {
        lemma_bfs_stays(size, start, target, find_nearest, entry_costs, k2, k);
    }
}

fn bfs_discover(
    size: usize,
    node: Vec2i,
    candidate: Vec2i,
    entry_costs: &Vec<Option<i32>>,
    costs: &mut Vec<i32>,
    backtrack: &mut Vec<usize>,
    queue: &mut VecDeque<Vec2i>,
    Ghost(cap): Ghost<int>,
    Ghost(start): Ghost<Vec2i>,
)
    requires
        0 < size <= i32::MAX,
        size * size <= usize::MAX,
        in_map(size as int, start),
        entry_costs_fit(size as int, entry_costs@, cap),
        bfs_state(size as int, entry_costs@, cap, start, old(costs)@, old(backtrack)@, old(queue)@, Some(node)),
        in_map(size as int, node),
        old(costs)@[cell_index(size as int, node)] != i32::MAX,
        manhattan(node, candidate) == 1,
    ensures
        bfs_state(size as int, entry_costs@, cap, start, final(costs)@, final(backtrack)@, final(queue)@, Some(node)),
        ({
            let s = size as int;
            let fresh = in_map(s, candidate) && passable_cells(entry_costs@)[cell_index(s, candidate)]
                && !known_cells(old(costs)@)[cell_index(s, candidate)];
            &&& fresh ==> known_cells(final(costs)@) == known_cells(old(costs)@).update(cell_index(s, candidate), true)
            &&& fresh ==> final(queue)@ == old(queue)@.push(candidate)
            &&& fresh ==> count_false(known_cells(final(costs)@)) < count_false(known_cells(old(costs)@))
            &&& !fresh ==> final(costs)@ == old(costs)@
            &&& !fresh ==> final(queue)@ == old(queue)@
            &&& in_map(s, candidate) && passable_cells(entry_costs@)[cell_index(s, candidate)] ==> known_cells(final(costs)@)[cell_index(s, candidate)]
            &&& count_false(known_cells(final(costs)@)) <= count_false(known_cells(old(costs)@))
            &&& forall|j: int| 0 <= j < old(costs)@.len() && #[trigger] known_cells(old(costs)@)[j] ==> known_cells(final(costs)@)[j]
            &&& final(costs)@[cell_index(s, node)] == old(costs)@[cell_index(s, node)]
        }),
        ({
            let r = bfs_discovered(size as int, node, candidate, entry_costs@, (old(costs)@, old(backtrack)@, old(queue)@));
            &&& final(costs)@ == r.0
            &&& final(backtrack)@ == r.1
            &&& final(queue)@ == r.2
        }),
{
    let ghost s = size as int;
    let ghost passable = passable_cells(entry_costs@);
    let ghost c0 = costs@;
    let ghost b0 = backtrack@;
    let ghost q0 = queue@;
    let ghost src = cell_index(s, start);
    let sz = size as i32;
    if !(0 <= candidate.x && candidate.x < sz && 0 <= candidate.y && candidate.y < sz) {
        return;
    }
    proof {
        lemma_cell_index_in_range(s, candidate);
        lemma_cell_index_in_range(s, node);
    }
    let index = position_to_index(candidate, size);
    if costs[index] != i32::MAX {
        return;
    }
    let entry = entry_costs[index];
    match entry {
        None => {
            assert(!passable[index as int]);
            return;
        },
        Some(cost) => {
            let node_index = position_to_index(node, size);
            let ghost kn = known_cells(c0);
            let ghost cf = count_false(kn);
            proof {
                assert(kn[node_index as int]);
                lemma_count_false_le(kn, node_index as int);
                assert(!kn[index as int]);
                assert(c0[node_index as int] <= (s * s - cf - 1) * cap);
                assert(1 <= cost <= cap);
                assert((s * s - cf - 1) * cap + cap == (s * s - cf) * cap) by (nonlinear_arith);
                assert((s * s - cf) * cap <= s * s * cap) by (nonlinear_arith)
                    requires
                        cf >= 0,
                        cap >= 1,
                ;
            }
            let new_cost = costs[node_index] + cost;
            costs.set(index, new_cost);
            backtrack.set(index, node_index);
            queue.push_back(candidate);
            proof {
                lemma_bfs_discovered(s, entry_costs@, cap, start, c0, b0, q0, node, candidate, costs@, backtrack@, queue@);
            }
        },
    }
}


/// Taking the cell at `i` off the queue to look at it keeps the flood fill's state.
proof fn lemma_fill_pop(
    size: int,
    passable: Seq<bool>,
    start: Vec2i,
    marked: Seq<bool>,
    d0: Seq<Vec2i>,
    i: int,
    d1: Seq<Vec2i>,
)
    requires
        fill_state(size, passable, start, marked, d0, None),
        0 <= i < d0.len(),
        d1 == d0.remove(i),
    ensures
        fill_state(size, passable, start, marked, d1, Some(d0[i])),
        in_map(size, d0[i]),
        marked[cell_index(size, d0[i])],
{
    let node = d0[i];
    assert forall|j: int| 0 <= j < d1.len() implies in_map(size, #[trigger] d1[j]) && marked[cell_index(size, d1[j])] by {
        if j < i {
            assert(d1[j] == d0[j]);
        } else {
            assert(d1[j] == d0[j + 1]);
        }
    }
    assert forall|a: Vec2i, b: Vec2i|
        in_map(size, a) && #[trigger] marked[cell_index(size, a)] && !d1.contains(a) && Some(node) != Some(a)
            && #[trigger] is_step(size, passable, a, b) implies marked[cell_index(size, b)] by {
        if d0.contains(a) {
            let j = choose|j: int| 0 <= j < d0.len() && d0[j] == a;
            if j < i {
                assert(d1[j] == a);
            } else if j > i {
                assert(d1[j - 1] == a);
            }
        }
    }
}

/// Taking the cell at `i` off the queue to look at it keeps every other cell looked at checked.
proof fn lemma_checked_pop<T: FindPathTarget>(
    size: int,
    target: &T,
    find_nearest: bool,
    m: int,
    marked: Seq<bool>,
    d0: Seq<Vec2i>,
    i: int,
    d1: Seq<Vec2i>,
)
    requires
        closed_checked(size, target, find_nearest, m, marked, d0, None),
        0 <= i < d0.len(),
        d1 == d0.remove(i),
    ensures
        closed_checked(size, target, find_nearest, m, marked, d1, Some(d0[i])),
{
    let node = d0[i];
    assert forall|p: Vec2i| #[trigger] is_closed(size, marked, d1, Some(node), p) implies is_closed(size, marked, d0, None, p) by {
        if d0.contains(p) {
            let j = choose|j: int| 0 <= j < d0.len() && d0[j] == p;
            if j < i {
                assert(d1[j] == p);
            } else if j > i {
                assert(d1[j - 1] == p);
            }
        }
    }
}

/// Marking `c` known and queuing it, or queuing a cell, or neither, keeps the cells looked at
/// checked: none is added to them.
proof fn lemma_checked_discover<T: FindPathTarget>(
    size: int,
    target: &T,
    find_nearest: bool,
    m: int,
    r0: Seq<bool>,
    d0: Seq<Vec2i>,
    r1: Seq<bool>,
    d1: Seq<Vec2i>,
    node: Vec2i,
    c: Vec2i,
)
    requires
        closed_checked(size, target, find_nearest, m, r0, d0, Some(node)),
        r0.len() == size * size,
        r1 == r0 || (in_map(size, c) && r1 == r0.update(cell_index(size, c), true) && d1 == d0.push(c)),
        d1 == d0 || d1 == d0.push(c),
    ensures
        closed_checked(size, target, find_nearest, m, r1, d1, Some(node)),
{
    assert forall|p: Vec2i| #[trigger] is_closed(size, r1, d1, Some(node), p) implies is_closed(size, r0, d0, Some(node), p) by {
        if d1 == d0.push(c) {
            assert(d1[d0.len() as int] == c);
            if d0.contains(p) {
                let j = choose|j: int| 0 <= j < d0.len() && d0[j] == p;
                assert(d1[j] == p);
            }
        }
        lemma_cell_index_in_range(size, p);
        if r1 != r0 {
            lemma_cell_index_in_range(size, c);
            if cell_index(size, p) == cell_index(size, c) {
                lemma_cell_index_injective(size, p, c);
                assert(d1[d0.len() as int] == c);
            }
        }
    }
}

/// Once `node`, which does not reach the target and is no nearer than `m` when that matters, has
/// been looked at, every cell looked at is checked.
proof fn lemma_checked_close<T: FindPathTarget>(
    size: int,
    target: &T,
    find_nearest: bool,
    m: int,
    r: Seq<bool>,
    d: Seq<Vec2i>,
    node: Vec2i,
)
    requires
        closed_checked(size, target, find_nearest, m, r, d, Some(node)),
        !target.target_reached(node),
        find_nearest ==> target.target_distance(node) >= m,
    ensures
        closed_checked(size, target, find_nearest, m, r, d, None),
{
    assert forall|p: Vec2i| #[trigger] is_closed(size, r, d, None, p) implies !target.target_reached(p) && (find_nearest
        ==> target.target_distance(p) >= m) by {
        if p != node {
            assert(is_closed(size, r, d, Some(node), p));
        }
    }
}

/// When nothing waits on the queue any more, every cell connected to `start` is known, and so
/// checked.
proof fn lemma_exhausted<T: FindPathTarget>(
    size: int,
    passable: Seq<bool>,
    start: Vec2i,
    target: &T,
    find_nearest: bool,
    m: int,
    marked: Seq<bool>,
    d: Seq<Vec2i>,
)
    requires
        fill_state(size, passable, start, marked, d, None),
        closed_checked(size, target, find_nearest, m, marked, d, None),
        d.len() == 0,
        in_map(size, start),
        marked[cell_index(size, start)],
    ensures
        forall|p: Vec2i|
            in_map(size, p) && #[trigger] connected(size, passable, start, p) ==> marked[cell_index(size, p)]
                && !target.target_reached(p) && (find_nearest ==> target.target_distance(p) >= m),
{
    assert forall|p: Vec2i| in_map(size, p) && #[trigger] connected(size, passable, start, p) implies marked[cell_index(size, p)]
        && !target.target_reached(p) && (find_nearest ==> target.target_distance(p) >= m) by {
        let path = choose|path: Seq<Vec2i>| #[trigger] is_path(size, passable, start, path) && path.last() == p;
        lemma_closed_set_contains_path(size, passable, start, path, marked);
        assert(!d.contains(p));
        assert(is_closed(size, marked, d, None, p));
    }
}


/// Breadth-first search from `start` over a `size` by `size` map whose cells cost
/// `entry_costs` to enter (`None`: they cannot be entered), filling `costs` and `backtrack`
/// (which come in unvisited: every cost `i32::MAX`, every cell its own back step). It looks at
/// cells in the order they were found and stops at the first that reaches `target`; with
/// `find_nearest`, the nearest cell looked at (strictly nearer than `start`) stands in when none
/// reaches it.
#[verifier::rlimit(80)]
pub fn bfs<T: FindPathTarget>(
    size: usize,
    start: Vec2i,
    target: &T,
    find_nearest: bool,
    entry_costs: &Vec<Option<i32>>,
    costs: &mut Vec<i32>,
    backtrack: &mut Vec<usize>,
) -> (destination: Option<usize>)
    requires
        size * size <= usize::MAX,
        in_map(size as int, start),
        exists|cap: int| entry_costs_fit(size as int, entry_costs@, cap),
        forall|p: Vec2i| in_map(size as int, p) ==> #[trigger] target.target_defined(p),
        old(costs).len() == size * size,
        old(backtrack).len() == size * size,
        forall|v: int| 0 <= v < size * size ==> old(costs)@[v] == i32::MAX,
        forall|v: int| 0 <= v < size * size ==> old(backtrack)@[v] == v,
    ensures
        search_results(size as int, entry_costs@, start, final(costs)@, final(backtrack)@, true),
        search_outcome(size as int, passable_cells(entry_costs@), start, target, find_nearest, destination),
        destination matches Some(d) ==> d < size * size && final(costs)@[d as int] != i32::MAX,
        final(costs)@ == bfs_run(size as int, start, target, find_nearest, entry_costs@).cells.0,
        final(backtrack)@ == bfs_run(size as int, start, target, find_nearest, entry_costs@).cells.1,
        destination == bfs_run(size as int, start, target, find_nearest, entry_costs@).destination,
{
    let ghost s = size as int;
    let ghost cap = choose|cap: int| entry_costs_fit(s, entry_costs@, cap);
    let ghost passable = passable_cells(entry_costs@);
    let ghost src = cell_index(s, start);
    proof {
        lemma_cell_index_in_range(s, start);
        assert(s * s < i32::MAX) by (nonlinear_arith)
            requires
                s * s * cap < i32::MAX,
                cap >= 1,
                s >= 1,
        ;
        assert(s <= s * s) by (nonlinear_arith)
            requires
                s >= 1,
        ;
    }
    let src_index = position_to_index(start, size);
    costs.set(src_index, 0);
    let mut queue: VecDeque<Vec2i> = VecDeque::new();
    queue.push_back(start);
    proof {
        let c = costs@;
        let b = backtrack@;
        let kn = known_cells(c);
        assert forall|p: Vec2i| in_map(s, p) && #[trigger] kn[cell_index(s, p)] implies p == start by {
            lemma_cell_index_in_range(s, p);
            if cell_index(s, p) != src {
                assert(c[cell_index(s, p)] == i32::MAX);
            } else {
                lemma_cell_index_injective(s, p, start);
            }
        }
        assert forall|v: int| 0 <= v < c.len() && #[trigger] c[v] != i32::MAX implies v == src by {}
        let only = seq![start];
        assert(is_path(s, passable, start, only) && only.last() == start);
        assert forall|p: Vec2i| in_map(s, p) && #[trigger] c[cell_index(s, p)] != i32::MAX implies connected(s, passable, start, p) by {
            lemma_cell_index_in_range(s, p);
            assert(kn[cell_index(s, p)]);
        }
        assert(queue@[0] == start);
        assert(queue@.contains(start));
        assert(search_tree(c, b, src));
        assert(kn[src]);
        lemma_count_false_le(kn, src);
        assert(0 <= (c.len() - count_false(kn) - 1) * cap) by (nonlinear_arith)
            requires
                count_false(kn) < c.len(),
                cap >= 1,
        ;
        assert(costs_bounded(c, cap));
        assert(fill_state(s, passable, start, kn, queue@, None));
        assert(bfs_state(s, entry_costs@, cap, start, c, b, queue@, None));
        assert(closed_checked(s, target, find_nearest, target.target_distance(start) as int, kn, queue@, None));
    }
    let mut min_distance = target.get_distance(start);
    let mut destination: Option<usize> = None;
    let ghost mut k: nat = 0;
    proof {
        let r0 = bfs_begin(s, start, target);
        assert(costs@ =~= r0.cells.0);
        assert(backtrack@ =~= r0.cells.1);
        assert(queue@ =~= r0.cells.2);
    }
    loop
        invariant_except_break
            bfs_state(s, entry_costs@, cap, start, costs@, backtrack@, queue@, None),
            !bfs_after(s, start, target, find_nearest, entry_costs@, k).done,
            bfs_holds(bfs_after(s, start, target, find_nearest, entry_costs@, k), costs@, backtrack@, queue@, min_distance as int, destination),
            closed_checked(s, target, find_nearest, min_distance as int, known_cells(costs@), queue@, None),
            destination matches Some(d) ==> !target.target_reached(index_position(s, d as int)),
            min_distance <= target.target_distance(start),
        invariant
            s == size,
            0 < size <= i32::MAX,
            size * size <= usize::MAX,
            s * s < i32::MAX,
            src == cell_index(s, start),
            passable == passable_cells(entry_costs@),
            in_map(s, start),
            entry_costs_fit(s, entry_costs@, cap),
            forall|p: Vec2i| in_map(s, p) ==> #[trigger] target.target_defined(p),
            costs@.len() == s * s,
            backtrack@.len() == s * s,
            search_tree(costs@, backtrack@, src),
            costs@[src] == 0,
            steps_back(s, entry_costs@, costs@, backtrack@, src, true),
            forall|p: Vec2i| in_map(s, p) && #[trigger] costs@[cell_index(s, p)] != i32::MAX ==> connected(s, passable, start, p),
            destination is None ==> min_distance == target.target_distance(start),
            destination matches Some(d) ==> {
                let pd = index_position(s, d as int);
                &&& d < s * s
                &&& in_map(s, pd)
                &&& d == cell_index(s, pd)
                &&& costs@[d as int] != i32::MAX
                &&& (target.target_reached(pd) || {
                    &&& find_nearest
                    &&& target.target_distance(pd) == min_distance
                    &&& min_distance < target.target_distance(start)
                })
            },
        ensures
            bfs_after(s, start, target, find_nearest, entry_costs@, k).done,
            bfs_holds(bfs_after(s, start, target, find_nearest, entry_costs@, k), costs@, backtrack@, queue@, min_distance as int, destination),
            (destination matches Some(d) && target.target_reached(index_position(s, d as int))) || (queue@.len() == 0
                && bfs_state(s, entry_costs@, cap, start, costs@, backtrack@, queue@, None)
                && closed_checked(s, target, find_nearest, min_distance as int, known_cells(costs@), queue@, None)
                && (destination matches Some(d) ==> !target.target_reached(index_position(s, d as int)))),
        decreases count_false(known_cells(costs@)), queue@.len(),
    {
        let ghost q0 = queue@;
        let ghost kn0 = known_cells(costs@);
        let next = queue.pop_front();
        let node = match next {
            None => {
                proof {
                    k = k + 1;
                }
                break;
            },
            Some(node) => node,
        };
        proof {
            assert(queue@ == q0.remove(0));
            lemma_fill_pop(s, passable, start, kn0, q0, 0, queue@);
            lemma_checked_pop(s, target, find_nearest, min_distance as int, kn0, q0, 0, queue@);
            lemma_cell_index_in_range(s, node);
            lemma_position_index_roundtrip(node.x as int, node.y as int, s);
            assert(costs@[cell_index(s, node)] != i32::MAX);
        }
        let node_index = position_to_index(node, size);
        let reached = target.has_reached(node);
        let distance = target.get_distance(node);
        if reached || min_distance > distance && find_nearest {
            min_distance = distance;
            destination = Some(node_index);
            if reached {
                proof {
                    k = k + 1;
                }
                break;
            }
        }
        let ghost c1 = costs@;
        let ghost q1 = queue@;
        let n1 = Vec2i::new(node.x + 1, node.y);
        bfs_discover(size, node, n1, entry_costs, costs, backtrack, &mut queue, Ghost(cap), Ghost(start));
        proof {
            lemma_checked_discover(s, target, find_nearest, min_distance as int, known_cells(c1), q1, known_cells(costs@), queue@, node, n1);
        }
        let ghost c2 = costs@;
        let ghost q2 = queue@;
        let n2 = Vec2i::new(node.x - 1, node.y);
        bfs_discover(size, node, n2, entry_costs, costs, backtrack, &mut queue, Ghost(cap), Ghost(start));
        proof {
            lemma_checked_discover(s, target, find_nearest, min_distance as int, known_cells(c2), q2, known_cells(costs@), queue@, node, n2);
        }
        let ghost c3 = costs@;
        let ghost q3 = queue@;
        let n3 = Vec2i::new(node.x, node.y + 1);
        bfs_discover(size, node, n3, entry_costs, costs, backtrack, &mut queue, Ghost(cap), Ghost(start));
        proof {
            lemma_checked_discover(s, target, find_nearest, min_distance as int, known_cells(c3), q3, known_cells(costs@), queue@, node, n3);
        }
        let ghost c4 = costs@;
        let ghost q4 = queue@;
        let n4 = Vec2i::new(node.x, node.y - 1);
        bfs_discover(size, node, n4, entry_costs, costs, backtrack, &mut queue, Ghost(cap), Ghost(start));
        proof {
            let c5 = costs@;
            lemma_checked_discover(s, target, find_nearest, min_distance as int, known_cells(c4), q4, known_cells(c5), queue@, node, n4);
            let r5 = known_cells(c5);
            assert forall|b: Vec2i|
                #[trigger] is_step(s, passable, node, b) && (b == n1 || b == n2 || b == n3 || b == n4) implies r5[cell_index(s, b)] by {
                lemma_cell_index_in_range(s, b);
                let j = cell_index(s, b);
                if b == n1 {
                    assert(known_cells(c2)[j]);
                    assert(known_cells(c3)[j]);
                    assert(known_cells(c4)[j]);
                } else if b == n2 {
                    assert(known_cells(c3)[j]);
                    assert(known_cells(c4)[j]);
                } else if b == n3 {
                    assert(known_cells(c4)[j]);
                }
            }
            lemma_close_node(s, passable, start, node, r5, queue@);
            lemma_checked_close(s, target, find_nearest, min_distance as int, r5, queue@, node);
            assert forall|j: int| 0 <= j < c1.len() && #[trigger] known_cells(c1)[j] implies r5[j] by {
                assert(known_cells(c2)[j]);
                assert(known_cells(c3)[j]);
                assert(known_cells(c4)[j]);
            }
            if destination is Some {
                let d = destination->0 as int;
                assert(index_position(s, node_index as int) == node);
                assert(known_cells(c1)[d]);
                assert(r5[d]);
            }
            assert forall|p: Vec2i| in_map(s, p) && #[trigger] c5[cell_index(s, p)] != i32::MAX implies connected(s, passable, start, p) by {
                lemma_cell_index_in_range(s, p);
                assert(r5[cell_index(s, p)]);
            }
            k = k + 1;
        }
    }
    proof {
        lemma_bfs_run(s, start, target, find_nearest, entry_costs@, k);
        if !(destination matches Some(d) && target.target_reached(index_position(s, d as int))) {
            lemma_exhausted(s, passable, start, target, find_nearest, min_distance as int, known_cells(costs@), queue@);
        }
    }
    destination
}


/// The cells waiting on an A* queue of (score, cell index) entries.
pub open spec fn heap_positions(size: int, heap: Seq<(i32, usize)>) -> Seq<Vec2i> {
    Seq::new(heap.len(), |j: int| index_position(size, heap[j].1 as int))
}

/// The sum of all costs, unknown ones counted as `i32::MAX`.
pub open spec fn cost_sum(costs: Seq<i32>) -> int
    decreases costs.len(),
{
    if costs.len() == 0 {
        0
    } else {
        cost_sum(costs.drop_last()) + costs.last()
    }
}

/// Distances to the target stay far enough from the ends of `i32` that a score (a path cost
/// plus a distance) and its negation fit.
pub open spec fn distances_fit<T: FindPathTarget>(size: int, target: &T, cap: int) -> bool {
    forall|p: Vec2i|
        in_map(size, p) ==> i32::MIN < #[trigger] target.target_distance(p) && target.target_distance(p) + size
            * size * cap < i32::MAX
}

/// The state of an A* search between steps: as for a breadth-first search, but a cell may be
/// reached again at a lower cost, and a cell off the queue (`open`) may wait on it again.
pub open spec fn a_star_state(
    size: int,
    entry_costs: Seq<Option<i32>>,
    cap: int,
    start: Vec2i,
    costs: Seq<i32>,
    backtrack: Seq<usize>,
    heap: Seq<(i32, usize)>,
    open: Seq<bool>,
    node: Option<Vec2i>,
) -> bool {
    &&& a_star_core(size, entry_costs, cap, start, costs, backtrack, open)
    &&& forall|j: int| 0 <= j < heap.len() ==> (#[trigger] heap[j]).1 < size * size
    &&& fill_state(size, passable_cells(entry_costs), start, known_cells(costs), heap_positions(size, heap), node)
}

/// The part of an A* search's state that does not concern the queue.
pub open spec fn a_star_core(
    size: int,
    entry_costs: Seq<Option<i32>>,
    cap: int,
    start: Vec2i,
    costs: Seq<i32>,
    backtrack: Seq<usize>,
    open: Seq<bool>,
) -> bool {
    let src = cell_index(size, start);
    &&& costs.len() == size * size
    &&& open.len() == size * size
    &&& search_tree(costs, backtrack, src)
    &&& costs[src] == 0
    &&& steps_back(size, entry_costs, costs, backtrack, src, false)
    &&& costs_bounded(costs, cap)
    &&& forall|v: int| 0 <= v < size * size && !(#[trigger] open[v]) ==> costs[v] != i32::MAX
}

proof fn lemma_cost_sum_update(c: Seq<i32>, i: int, x: i32)
    requires
        0 <= i < c.len(),
    ensures
        cost_sum(c.update(i, x)) == cost_sum(c) - c[i] + x,
    decreases c.len(),
{
    if i == c.len() - 1 {
        assert(c.update(i, x).drop_last() =~= c.drop_last());
    } else {
        lemma_cost_sum_update(c.drop_last(), i, x);
        assert(c.update(i, x).drop_last() =~= c.drop_last().update(i, x));
    }
}

proof fn lemma_cost_sum_nonneg(c: Seq<i32>)
    requires
        forall|i: int| 0 <= i < c.len() ==> #[trigger] c[i] >= 0,
    ensures
        cost_sum(c) >= 0,
    decreases c.len(),
{
    if c.len() > 0 {
        lemma_cost_sum_nonneg(c.drop_last());
    }
}

/// A cell index of a `size` by `size` map names a cell of the map, whose index it is.
proof fn lemma_index_in_map(size: int, d: int)
    requires
        0 < size <= i32::MAX,
        0 <= d < size * size,
    ensures
        in_map(size, index_position(size, d)),
        cell_index(size, index_position(size, d)) == d,
        d / size < size,
{
    crate::grid::lemma_index_position_roundtrip(d, size);
    assert(0 <= d / size < size) by (nonlinear_arith)
        requires
            0 <= d < size * size,
            0 < size,
            (d % size) + (d / size) * size == d,
            0 <= d % size < size,
    ;
}

/// A cell index of a `size` by `size` map names a cell of the map, whose index it is.
pub proof fn lemma_index_in_map_pub(size: int, d: int)
    requires
        0 < size <= i32::MAX,
        0 <= d < size * size,
    ensures
        in_map(size, index_position(size, d)),
        cell_index(size, index_position(size, d)) == d,
        d / size < size,
{
    lemma_index_in_map(size, d);
}

/// Queuing a cell with a known cost keeps the flood fill's state.
proof fn lemma_fill_push_known(size: int, passable: Seq<bool>, start: Vec2i, marked: Seq<bool>, d0: Seq<Vec2i>, node: Vec2i, c: Vec2i)
    requires
        fill_state(size, passable, start, marked, d0, Some(node)),
        in_map(size, c),
        marked[cell_index(size, c)],
    ensures
        fill_state(size, passable, start, marked, d0.push(c), Some(node)),
{
    let d1 = d0.push(c);
    assert forall|j: int| 0 <= j < d1.len() implies in_map(size, #[trigger] d1[j]) && marked[cell_index(size, d1[j])] by {
        if j < d0.len() {
            assert(d1[j] == d0[j]);
        }
    }
    assert forall|a: Vec2i, b: Vec2i|
        in_map(size, a) && #[trigger] marked[cell_index(size, a)] && !d1.contains(a) && Some(node) != Some(a)
            && #[trigger] is_step(size, passable, a, b) implies marked[cell_index(size, b)] by {
        if d0.contains(a) {
            let j = choose|j: int| 0 <= j < d0.len() && d0[j] == a;
            assert(d1[j] == a);
        }
    }
}

/// Lowering the cost of `index` to the cost of the known cell `node_index`, one move away, plus
/// its entry cost, with `node_index` as the cell it is reached from, keeps the search tree.
#[verifier::spinoff_prover]
proof fn lemma_tree_lowered(
    s: int,
    entry_costs: Seq<Option<i32>>,
    src: int,
    c0: Seq<i32>,
    b0: Seq<usize>,
    node_index: int,
    index: int,
    c1: Seq<i32>,
    b1: Seq<usize>,
)
    requires
        search_tree(c0, b0, src),
        steps_back(s, entry_costs, c0, b0, src, false),
        0 <= src < c0.len(),
        c0.len() <= usize::MAX,
        c0[src] == 0,
        0 <= node_index < c0.len(),
        0 <= index < c0.len(),
        c0[node_index] != i32::MAX,
        entry_costs[index] is Some,
        entry_costs[index]->0 >= 1,
        adjacent_cells(s, node_index, index),
        c0[node_index] + entry_costs[index]->0 < c0[index],
        c1 == c0.update(index, (c0[node_index] + entry_costs[index]->0) as i32),
        b1 == b0.update(index, node_index as usize),
    ensures
        search_tree(c1, b1, src),
        steps_back(s, entry_costs, c1, b1, src, false),
        c1[src] == 0,
{
    assert(index != src);
    assert(node_index != index);
    assert forall|v: int| #![trigger b1[v]] 0 <= v < c1.len() && v != src && c1[v] != i32::MAX implies c1[b1[v] as int]
        < c1[v] by {
        if v != index {
            assert(c0[v] != i32::MAX);
            assert(c0[b0[v] as int] < c0[v]);
            assert(b1[v] == b0[v]);
        } else {
            assert(b1[v] as int == node_index);
        }
    }
    assert forall|v: int| #![trigger b1[v]] 0 <= v < c1.len() && v != src && c1[v] != i32::MAX implies {
        let u = b1[v] as int;
        &&& adjacent_cells(s, u, v)
        &&& entry_costs[v] is Some
        &&& c1[v] >= c1[u] + entry_costs[v]->0
        &&& false ==> c1[v] == c1[u] + entry_costs[v]->0
    } by {
        if v != index {
            assert(c0[v] != i32::MAX);
            assert(c0[b0[v] as int] < c0[v]);
            assert(b1[v] == b0[v]);
        } else {
            assert(b1[v] as int == node_index);
        }
    }
}

/// Lowering a known cost keeps the bound on known costs and which cells are known.
proof fn lemma_bound_lowered(c0: Seq<i32>, cap: int, index: int, c1: Seq<i32>)
    requires
        costs_bounded(c0, cap),
        0 <= index < c0.len(),
        c0[index] != i32::MAX,
        c1 == c0.update(index, c1[index]),
        c1[index] < c0[index],
    ensures
        costs_bounded(c1, cap),
        known_cells(c1) == known_cells(c0),
{
    assert(known_cells(c1) =~= known_cells(c0));
    assert forall|v: int| 0 <= v < c1.len() && #[trigger] c1[v] != i32::MAX implies c1[v] <= (c1.len() - count_false(
        known_cells(c1),
    ) - 1) * cap by {
        assert(c0[v] != i32::MAX);
    }
}


/// Whether entry `a` of an A* queue comes out before entry `b`: a higher score first, then a
/// higher cell index.
pub open spec fn entry_greater(a: (i32, usize), b: (i32, usize)) -> bool {
    a.0 > b.0 || (a.0 == b.0 && a.1 > b.1)
}

/// State `i` has an entry in the queue `f`.
pub(crate) open spec fn queued(f: Seq<(i32, usize)>, i: int) -> bool {
    exists|j: int| 0 <= j < f.len() && f[j].1 == i
}

/// The queue `f` of a search over `n` states holds each state not taken from it yet, once, and
/// nothing else.
pub(crate) open spec fn queue_ok(f: Seq<(i32, usize)>, popped: Seq<bool>, n: int) -> bool {
    &&& popped.len() == n
    &&& forall|j: int| 0 <= j < f.len() ==> (#[trigger] f[j]).1 < n
    &&& forall|j1: int, j2: int| 0 <= j1 < f.len() && 0 <= j2 < f.len() && j1 != j2 ==> (#[trigger] f[j1]).1 != (#[trigger] f[j2]).1
    &&& forall|i: int| 0 <= i < n ==> (#[trigger] popped[i] <==> !queued(f, i))
}

/// Taking entry `b` from the queue leaves a queue of the states not taken yet.
pub(crate) proof fn lemma_queue_remove(f: Seq<(i32, usize)>, popped: Seq<bool>, n: int, b: int)
    requires
        queue_ok(f, popped, n),
        0 <= b < f.len(),
    ensures
        queue_ok(f.remove(b), popped.update(f[b].1 as int, true), n),
        !popped[f[b].1 as int],
{
    let g = f.remove(b);
    let q = popped.update(f[b].1 as int, true);
    assert(queued(f, f[b].1 as int));
    assert forall|j: int| 0 <= j < g.len() implies (#[trigger] g[j]).1 < n by {
        if j < b {
            assert(g[j] == f[j]);
        } else {
            assert(g[j] == f[j + 1]);
        }
    }
    assert forall|j1: int, j2: int| 0 <= j1 < g.len() && 0 <= j2 < g.len() && j1 != j2 implies (#[trigger] g[j1]).1 != (#[trigger] g[j2]).1 by {
        let k1 = if j1 < b { j1 } else { j1 + 1 };
        let k2 = if j2 < b { j2 } else { j2 + 1 };
        assert(g[j1] == f[k1]);
        assert(g[j2] == f[k2]);
    }
    assert forall|i: int| 0 <= i < n implies (#[trigger] q[i] <==> !queued(g, i)) by {
        if queued(g, i) {
            let j = choose|j: int| 0 <= j < g.len() && g[j].1 == i;
            let k = if j < b { j } else { j + 1 };
            assert(g[j] == f[k]);
            assert(k != b);
            assert(f[k].1 != f[b].1);
            assert(queued(f, i));
        }
        if i != f[b].1 && queued(f, i) {
            let k = choose|k: int| 0 <= k < f.len() && f[k].1 == i;
            assert(k != b);
            let j = if k < b { k } else { k - 1 };
            assert(g[j] == f[k]);
            assert(queued(g, i));
        }
    }
}

/// A new state `n` entered in the queue keeps a queue of the states not taken yet.
pub(crate) proof fn lemma_queue_push(f: Seq<(i32, usize)>, popped: Seq<bool>, n: int, e: (i32, usize))
    requires
        queue_ok(f, popped, n),
        e.1 == n,
    ensures
        queue_ok(f.push(e), popped.push(false), n + 1),
{
    let g = f.push(e);
    let q = popped.push(false);
    assert(g[f.len() as int] == e);
    assert forall|j: int| 0 <= j < g.len() implies (#[trigger] g[j]).1 < n + 1 by {
        if j < f.len() {
            assert(g[j] == f[j]);
        }
    }
    assert forall|j1: int, j2: int| 0 <= j1 < g.len() && 0 <= j2 < g.len() && j1 != j2 implies (#[trigger] g[j1]).1 != (#[trigger] g[j2]).1 by {
        if j1 < f.len() {
            assert(g[j1] == f[j1]);
        }
        if j2 < f.len() {
            assert(g[j2] == f[j2]);
        }
    }
    assert forall|i: int| 0 <= i < n + 1 implies (#[trigger] q[i] <==> !queued(g, i)) by {
        if i == n {
            assert(queued(g, i));
        } else {
            assert(q[i] == popped[i]);
            if queued(g, i) {
                let j = choose|j: int| 0 <= j < g.len() && g[j].1 == i;
                assert(j < f.len());
                assert(g[j] == f[j]);
                assert(queued(f, i));
            }
            if queued(f, i) {
                let j = choose|j: int| 0 <= j < f.len() && f[j].1 == i;
                assert(g[j] == f[j]);
                assert(queued(g, i));
            }
        }
    }
}

/// Where in `heap` the entry that comes out next stands.
/// The index of the first greatest entry among the first `j` entries of `h` (0 when `j <= 1`).
pub open spec fn best_upto(h: Seq<(i32, usize)>, j: int) -> int
    decreases j,
{
    if j <= 1 {
        0
    } else {
        let b = best_upto(h, j - 1);
        if entry_greater(h[j - 1], h[b]) {
            j - 1
        } else {
            b
        }
    }
}

/// The index of the first greatest entry of `h`.
pub open spec fn best_index(h: Seq<(i32, usize)>) -> int {
    best_upto(h, h.len() as int)
}

/// The costs, back steps, queue entries (negated score, cell) and the cells that may still join
/// the queue, of an A* search.
pub type AStarCells = (Seq<i32>, Seq<usize>, Seq<(i32, usize)>, Seq<bool>);

/// What looking at `cand`, one move from `node`, does to an A* search: when `cand` lies on the
/// map, can be entered, and `node`'s cost plus its entry cost is below its own, that becomes
/// its cost and `node` its back step; and if it may still join the queue, it joins it scored by
/// the negated sum of that cost and its distance to `target`, and may not join again.
pub open spec fn a_star_relaxed<T: FindPathTarget>(
    size: int,
    node: Vec2i,
    cand: Vec2i,
    target: &T,
    entry_costs: Seq<Option<i32>>,
    c: AStarCells,
) -> AStarCells {
    let index = cell_index(size, cand);
    if !in_map(size, cand) {
        c
    } else {
        match entry_costs[index] {
            None => c,
            Some(cost) => {
                let new_cost = c.0[cell_index(size, node)] + cost;
                if c.0[index] <= new_cost {
                    c
                } else {
                    let costs = c.0.update(index, new_cost as i32);
                    let backtrack = c.1.update(index, cell_index(size, node) as usize);
                    if !c.3[index] {
                        (costs, backtrack, c.2, c.3)
                    } else {
                        (
                            costs,
                            backtrack,
                            c.2.push(((-(new_cost + target.target_distance(cand))) as i32, index as usize)),
                            c.3.update(index, false),
                        )
                    }
                }
            },
        }
    }
}

/// An A* search between looks: its cells, the distance to the target of the nearest cell seen,
/// the destination so far, and whether it has ended.
pub struct AStarRun {
    pub cells: AStarCells,
    pub min_distance: int,
    pub destination: Option<usize>,
    pub done: bool,
}

/// One look of an A* search: with the queue empty the search ends; else it takes the first
/// greatest entry; a cell that reaches `target`, or (with `find_nearest`) is nearer than any
/// before, becomes the destination; a cell that reaches `target` ends the search; else the cell
/// may join the queue again and its four neighbours (right, left, below, above) are looked at.
pub open spec fn a_star_step<T: FindPathTarget>(
    size: int,
    target: &T,
    find_nearest: bool,
    entry_costs: Seq<Option<i32>>,
    r: AStarRun,
) -> AStarRun {
    if r.done {
        r
    } else if r.cells.2.len() == 0 {
        AStarRun { done: true, ..r }
    } else {
        let b = best_index(r.cells.2);
        let ni = r.cells.2[b].1;
        let node = index_position(size, ni as int);
        let heap = r.cells.2.remove(b);
        let reached = target.target_reached(node);
        let dist = target.target_distance(node);
        let chosen = reached || (r.min_distance > dist && find_nearest);
        let min_distance = if chosen { dist } else { r.min_distance };
        let destination = if chosen { Some(ni) } else { r.destination };
        if reached {
            AStarRun { cells: (r.cells.0, r.cells.1, heap, r.cells.3), min_distance, destination, done: true }
        } else {
            let c0 = (r.cells.0, r.cells.1, heap, r.cells.3.update(ni as int, true));
            let c1 = a_star_relaxed(size, node, Vec2i { x: (node.x + 1) as i32, y: node.y }, target, entry_costs, c0);
            let c2 = a_star_relaxed(size, node, Vec2i { x: (node.x - 1) as i32, y: node.y }, target, entry_costs, c1);
            let c3 = a_star_relaxed(size, node, Vec2i { x: node.x, y: (node.y + 1) as i32 }, target, entry_costs, c2);
            let c4 = a_star_relaxed(size, node, Vec2i { x: node.x, y: (node.y - 1) as i32 }, target, entry_costs, c3);
            AStarRun { cells: c4, min_distance, destination, done: false }
        }
    }
}

/// An A* search from `start` before its first look: only `start` is known, at cost 0, and
/// waits on the queue.
pub open spec fn a_star_begin<T: FindPathTarget>(size: int, start: Vec2i, target: &T) -> AStarRun {
    let src = cell_index(size, start);
    let n = (size * size) as nat;
    AStarRun {
        cells: (
            Seq::new(n, |v: int| if v == src { 0i32 } else { i32::MAX }),
            Seq::new(n, |v: int| v as usize),
            seq![((-target.target_distance(start)) as i32, src as usize)],
            Seq::new(n, |v: int| true),
        ),
        min_distance: target.target_distance(start),
        destination: None,
        done: false,
    }
}

/// An A* search after `k` looks.
pub open spec fn a_star_after<T: FindPathTarget>(
    size: int,
    start: Vec2i,
    target: &T,
    find_nearest: bool,
    entry_costs: Seq<Option<i32>>,
    k: nat,
) -> AStarRun
    decreases k,
{
    if k == 0 {
        a_star_begin(size, start, target)
    } else {
        a_star_step(size, target, find_nearest, entry_costs, a_star_after(size, start, target, find_nearest, entry_costs, (k - 1) as nat))
    }
}

/// Where an A* search ends: its state once it has ended.
pub open spec fn a_star_run<T: FindPathTarget>(
    size: int,
    start: Vec2i,
    target: &T,
    find_nearest: bool,
    entry_costs: Seq<Option<i32>>,
) -> AStarRun {
    a_star_after(
        size,
        start,
        target,
        find_nearest,
        entry_costs,
        choose|k: nat| #[trigger] a_star_after(size, start, target, find_nearest, entry_costs, k).done,
    )
}

/// Whether the search's variables hold what the run `r` says.
pub open spec fn run_holds(
    r: AStarRun,
    costs: Seq<i32>,
    backtrack: Seq<usize>,
    heap: Seq<(i32, usize)>,
    open: Seq<bool>,
    min_distance: int,
    destination: Option<usize>,
) -> bool {
    &&& r.cells.0 == costs
    &&& r.cells.1 == backtrack
    &&& r.cells.2 == heap
    &&& r.cells.3 == open
    &&& r.min_distance == min_distance
    &&& r.destination == destination
}

/// Once ended, an A* search stays as it is.
proof fn lemma_a_star_stays<T: FindPathTarget>(
    size: int,
    start: Vec2i,
    target: &T,
    find_nearest: bool,
    entry_costs: Seq<Option<i32>>,
    k: nat,
    j: nat,
)
    requires
        a_star_after(size, start, target, find_nearest, entry_costs, k).done,
        k <= j,
    ensures
        a_star_after(size, start, target, find_nearest, entry_costs, j) == a_star_after(
            size,
            start,
            target,
            find_nearest,
            entry_costs,
            k,
        ),
    decreases j - k,
{
    if j > k {
        lemma_a_star_stays(size, start, target, find_nearest, entry_costs, k, (j - 1) as nat);
    }
}

/// A search that has ended after `k` looks is where the search ends.
proof fn lemma_a_star_run<T: FindPathTarget>(
    size: int,
    start: Vec2i,
    target: &T,
    find_nearest: bool,
    entry_costs: Seq<Option<i32>>,
    k: nat,
)
    requires
        a_star_after(size, start, target, find_nearest, entry_costs, k).done,
    ensures
        a_star_run(size, start, target, find_nearest, entry_costs) == a_star_after(
            size,
            start,
            target,
            find_nearest,
            entry_costs,
            k,
        ),
{
    let k2 = choose|k: nat| #[trigger] a_star_after(size, start, target, find_nearest, entry_costs, k).done;
    assert(a_star_after(size, start, target, find_nearest, entry_costs, k2).done);
    if k <= k2 {
        lemma_a_star_stays(size, start, target, find_nearest, entry_costs, k, k2);
    } else {
        lemma_a_star_stays(size, start, target, find_nearest, entry_costs, k2, k);
    }
}

pub(crate) fn best_entry(heap: &Vec<(i32, usize)>) -> (i: usize)
    requires
        heap.len() > 0,
    ensures
        i < heap.len(),
        forall|j: int| 0 <= j < heap.len() ==> !entry_greater(#[trigger] heap@[j], heap@[i as int]),
        i == best_index(heap@),
{
    let mut best: usize = 0;
    let mut j: usize = 1;
    while j < heap.len()
        invariant
            1 <= j <= heap.len(),
            best < j,
            forall|k: int| 0 <= k < j ==> !entry_greater(#[trigger] heap@[k], heap@[best as int]),
            best == best_upto(heap@, j as int),
        decreases heap.len() - j,
    {
        let (score, index) = heap[j];
        let (best_score, best_index) = heap[best];
        if score > best_score || (score == best_score && index > best_index) {
            best = j;
        }
        j = j + 1;
    }
    best
}

/// Lowering the cost of `candidate`, one move from the known `node`, to `node`'s cost plus its
/// entry cost keeps the part of an A* search's state that does not concern the queue, and
/// lowers the sum of all costs.
proof fn lemma_a_star_lowered(
    s: int,
    entry_costs: Seq<Option<i32>>,
    cap: int,
    start: Vec2i,
    c0: Seq<i32>,
    b0: Seq<usize>,
    o0: Seq<bool>,
    node: Vec2i,
    candidate: Vec2i,
    c1: Seq<i32>,
    b1: Seq<usize>,
)
    requires
        0 < s <= i32::MAX,
        s * s <= usize::MAX,
        in_map(s, start),
        entry_costs_fit(s, entry_costs, cap),
        a_star_core(s, entry_costs, cap, start, c0, b0, o0),
        in_map(s, node),
        in_map(s, candidate),
        c0[cell_index(s, node)] != i32::MAX,
        entry_costs[cell_index(s, candidate)] is Some,
        manhattan(node, candidate) == 1,
        c0[cell_index(s, node)] + entry_costs[cell_index(s, candidate)]->0 < c0[cell_index(s, candidate)],
        c1 == c0.update(
            cell_index(s, candidate),
            (c0[cell_index(s, node)] + entry_costs[cell_index(s, candidate)]->0) as i32,
        ),
        b1 == b0.update(cell_index(s, candidate), cell_index(s, node) as usize),
    ensures
        a_star_core(s, entry_costs, cap, start, c1, b1, o0),
        cost_sum(c1) < cost_sum(c0),
        c0[cell_index(s, candidate)] != i32::MAX ==> known_cells(c1) == known_cells(c0),
        c0[cell_index(s, candidate)] == i32::MAX ==> known_cells(c1) == known_cells(c0).update(cell_index(s, candidate), true),
{
    let index = cell_index(s, candidate);
    let node_index = cell_index(s, node);
    let src = cell_index(s, start);
    lemma_cell_index_in_range(s, candidate);
    lemma_cell_index_in_range(s, node);
    lemma_cell_index_in_range(s, start);
    lemma_position_index_roundtrip(node.x as int, node.y as int, s);
    lemma_position_index_roundtrip(candidate.x as int, candidate.y as int, s);
    assert(index_position(s, node_index) == node);
    assert(index_position(s, index) == candidate);
    assert(adjacent_cells(s, node_index, index)) by {
        reveal(adjacent_cells);
    }
    lemma_tree_lowered(s, entry_costs, src, c0, b0, node_index, index, c1, b1);
    lemma_cost_sum_update(c0, index, c1[index]);
    if c0[index] != i32::MAX {
        lemma_bound_lowered(c0, cap, index, c1);
    } else {
        lemma_bound_extended(c0, cap, node_index, index, c1);
    }
}


/// Looks at `candidate`, one move from `node`: when it lies on the map, can be entered and
/// `node`'s cost plus its entry cost is below its own, that becomes its cost and `node` the
/// cell it is reached from, and unless it already waits it joins the queue scored by that
/// cost plus its distance to `target`.
fn a_star_relax<T: FindPathTarget>(
    size: usize,
    node: Vec2i,
    candidate: Vec2i,
    target: &T,
    entry_costs: &Vec<Option<i32>>,
    costs: &mut Vec<i32>,
    backtrack: &mut Vec<usize>,
    open: &mut Vec<bool>,
    heap: &mut Vec<(i32, usize)>,
    Ghost(cap): Ghost<int>,
    Ghost(start): Ghost<Vec2i>,
)
    requires
        0 < size <= i32::MAX,
        size * size <= usize::MAX,
        in_map(size as int, start),
        entry_costs_fit(size as int, entry_costs@, cap),
        distances_fit(size as int, target, cap),
        forall|p: Vec2i| in_map(size as int, p) ==> #[trigger] target.target_defined(p),
        a_star_state(size as int, entry_costs@, cap, start, old(costs)@, old(backtrack)@, old(heap)@, old(open)@, Some(node)),
        in_map(size as int, node),
        old(costs)@[cell_index(size as int, node)] != i32::MAX,
        manhattan(node, candidate) == 1,
    ensures
        a_star_state(size as int, entry_costs@, cap, start, final(costs)@, final(backtrack)@, final(heap)@, final(open)@, Some(node)),
        ({
            let s = size as int;
            let k0 = known_cells(old(costs)@);
            let k1 = known_cells(final(costs)@);
            let h0 = heap_positions(s, old(heap)@);
            let h1 = heap_positions(s, final(heap)@);
            &&& (final(costs)@ == old(costs)@ && final(heap)@ == old(heap)@) || cost_sum(final(costs)@) < cost_sum(old(costs)@)
            &&& cost_sum(final(costs)@) <= cost_sum(old(costs)@)
            &&& k1 == k0 || (in_map(s, candidate) && k1 == k0.update(cell_index(s, candidate), true) && h1 == h0.push(candidate))
            &&& h1 == h0 || h1 == h0.push(candidate)
            &&& in_map(s, candidate) && passable_cells(entry_costs@)[cell_index(s, candidate)] ==> k1[cell_index(s, candidate)]
            &&& forall|j: int| 0 <= j < k0.len() && #[trigger] k0[j] ==> k1[j]
            &&& final(costs)@[cell_index(s, node)] == old(costs)@[cell_index(s, node)]
        }),
        ({
            let r = a_star_relaxed(size as int, node, candidate, target, entry_costs@, (old(costs)@, old(backtrack)@, old(heap)@, old(open)@));
            &&& final(costs)@ == r.0
            &&& final(backtrack)@ == r.1
            &&& final(heap)@ == r.2
            &&& final(open)@ == r.3
        }),
{
    let ghost s = size as int;
    let ghost c0 = costs@;
    let ghost b0 = backtrack@;
    let ghost h0 = heap@;
    let ghost o0 = open@;
    let ghost kn = known_cells(c0);
    let sz = size as i32;
    if !(0 <= candidate.x && candidate.x < sz && 0 <= candidate.y && candidate.y < sz) {
        return;
    }
    proof {
        lemma_cell_index_in_range(s, candidate);
        lemma_cell_index_in_range(s, node);
    }
    let index = position_to_index(candidate, size);
    let entry = entry_costs[index];
    match entry {
        None => {
            assert(!passable_cells(entry_costs@)[index as int]);
            return;
        },
        Some(cost) => {
            let node_index = position_to_index(node, size);
            let ghost cf = count_false(kn);
            proof {
                assert(kn[node_index as int]);
                lemma_count_false_at_most(kn);
                assert(c0[node_index as int] <= (s * s - cf - 1) * cap);
                assert(1 <= cost <= cap);
                assert((s * s - cf - 1) * cap + cap <= s * s * cap) by (nonlinear_arith)
                    requires
                        cf >= 0,
                        cap >= 1,
                ;
            }
            let new_cost = costs[node_index] + cost;
            if costs[index] <= new_cost {
                assert(kn[index as int]);
                return;
            }
            costs.set(index, new_cost);
            backtrack.set(index, node_index);
            proof {
                lemma_a_star_lowered(s, entry_costs@, cap, start, c0, b0, o0, node, candidate, costs@, backtrack@);
            }
            if !open[index] {
                assert(kn[index as int]);
                assert(known_cells(costs@) == kn);
                return;
            }
            open.set(index, false);
            let distance = target.get_distance(candidate);
            let new_score = new_cost + distance;
            heap.push((-new_score, index));
            proof {
                let c1 = costs@;
                let h1 = heap@;
                lemma_position_index_roundtrip(candidate.x as int, candidate.y as int, s);
                assert(index_position(s, index as int) == candidate);
                assert(h1[h0.len() as int].1 == index);
                assert forall|j: int| 0 <= j < h1.len() implies #[trigger] heap_positions(s, h1)[j] == heap_positions(s, h0).push(candidate)[j] by {
                    if j < h0.len() {
                        assert(h1[j] == h0[j]);
                    }
                }
                assert(heap_positions(s, h1) =~= heap_positions(s, h0).push(candidate));
                assert forall|v: int| 0 <= v < s * s && !(#[trigger] open@[v]) implies c1[v] != i32::MAX by {
                    if v != index as int {
                        assert(!o0[v]);
                        assert(c0[v] != i32::MAX);
                    }
                }
                assert forall|j: int| 0 <= j < h1.len() implies (#[trigger] h1[j]).1 < s * s by {
                    if j < h0.len() {
                        assert(h1[j] == h0[j]);
                    }
                }
                if kn[index as int] {
                    lemma_fill_push_known(s, passable_cells(entry_costs@), start, kn, heap_positions(s, h0), node, candidate);
                } else {
                    lemma_discover_keeps_state(
                        s,
                        passable_cells(entry_costs@),
                        start,
                        node,
                        candidate,
                        kn,
                        heap_positions(s, h0),
                        known_cells(c1),
                        heap_positions(s, h1),
                    );
                }
            }
        },
    }
}


/// A* search from `start` over a `size` by `size` map whose cells cost `entry_costs` to enter
/// (`None`: they cannot be entered), filling `costs` and `backtrack` (which come in unvisited:
/// every cost `i32::MAX`, every cell its own back step). It always looks next at the waiting
/// cell of highest score, the negated sum of its cost and its distance to `target` (ties: the
/// higher cell index), and stops at the first cell that reaches `target`; with `find_nearest`,
/// the nearest cell looked at (strictly nearer than `start`) stands in when none reaches it.
#[verifier::rlimit(80)]
pub fn a_star<T: FindPathTarget>(
    size: usize,
    start: Vec2i,
    target: &T,
    find_nearest: bool,
    entry_costs: &Vec<Option<i32>>,
    costs: &mut Vec<i32>,
    backtrack: &mut Vec<usize>,
) -> (destination: Option<usize>)
    requires
        size * size <= usize::MAX,
        in_map(size as int, start),
        exists|cap: int| entry_costs_fit(size as int, entry_costs@, cap) && distances_fit(size as int, target, cap),
        forall|p: Vec2i| in_map(size as int, p) ==> #[trigger] target.target_defined(p),
        old(costs).len() == size * size,
        old(backtrack).len() == size * size,
        forall|v: int| 0 <= v < size * size ==> old(costs)@[v] == i32::MAX,
        forall|v: int| 0 <= v < size * size ==> old(backtrack)@[v] == v,
    ensures
        search_results(size as int, entry_costs@, start, final(costs)@, final(backtrack)@, false),
        search_outcome(size as int, passable_cells(entry_costs@), start, target, find_nearest, destination),
        destination matches Some(d) ==> d < size * size && final(costs)@[d as int] != i32::MAX,
        final(costs)@ == a_star_run(size as int, start, target, find_nearest, entry_costs@).cells.0,
        final(backtrack)@ == a_star_run(size as int, start, target, find_nearest, entry_costs@).cells.1,
        destination == a_star_run(size as int, start, target, find_nearest, entry_costs@).destination,
{
    let ghost s = size as int;
    let ghost cap = choose|cap: int| entry_costs_fit(s, entry_costs@, cap) && distances_fit(s, target, cap);
    let ghost passable = passable_cells(entry_costs@);
    let ghost src = cell_index(s, start);
    proof {
        lemma_cell_index_in_range(s, start);
        assert(s * s < i32::MAX) by (nonlinear_arith)
            requires
                s * s * cap < i32::MAX,
                cap >= 1,
                s >= 1,
        ;
        assert(s <= s * s) by (nonlinear_arith)
            requires
                s >= 1,
        ;
    }
    let n = size * size;
    let mut open: Vec<bool> = Vec::new();
    let mut k: usize = 0;
    while k < n
        invariant
            k <= n,
            open.len() == k,
            forall|v: int| 0 <= v < k ==> #[trigger] open@[v],
        decreases n - k,
    {
        open.push(true);
        k = k + 1;
    }
    let src_index = position_to_index(start, size);
    costs.set(src_index, 0);
    let mut min_distance = target.get_distance(start);
    let mut heap: Vec<(i32, usize)> = Vec::new();
    heap.push((-min_distance, src_index));
    proof {
        let c = costs@;
        let b = backtrack@;
        let kn = known_cells(c);
        let hp = heap_positions(s, heap@);
        lemma_position_index_roundtrip(start.x as int, start.y as int, s);
        assert(hp[0] == start);
        assert(hp.contains(start));
        assert forall|p: Vec2i| in_map(s, p) && #[trigger] kn[cell_index(s, p)] implies p == start by {
            lemma_cell_index_in_range(s, p);
            if cell_index(s, p) != src {
                assert(c[cell_index(s, p)] == i32::MAX);
            } else {
                lemma_cell_index_injective(s, p, start);
            }
        }
        assert forall|v: int| 0 <= v < c.len() && #[trigger] c[v] != i32::MAX implies v == src by {}
        let only = seq![start];
        assert(is_path(s, passable, start, only) && only.last() == start);
        assert forall|p: Vec2i| in_map(s, p) && #[trigger] c[cell_index(s, p)] != i32::MAX implies connected(s, passable, start, p) by {
            lemma_cell_index_in_range(s, p);
            assert(kn[cell_index(s, p)]);
        }
        assert(search_tree(c, b, src));
        assert(kn[src]);
        lemma_count_false_le(kn, src);
        assert(0 <= (c.len() - count_false(kn) - 1) * cap) by (nonlinear_arith)
            requires
                count_false(kn) < c.len(),
                cap >= 1,
        ;
        assert(costs_bounded(c, cap));
        assert(fill_state(s, passable, start, kn, hp, None));
        assert(a_star_state(s, entry_costs@, cap, start, c, b, heap@, open@, None));
        assert(closed_checked(s, target, find_nearest, target.target_distance(start) as int, kn, hp, None));
        assert forall|i: int| 0 <= i < c.len() implies #[trigger] c[i] >= 0 by {}
        lemma_cost_sum_nonneg(c);
    }
    let mut destination: Option<usize> = None;
    let ghost mut k: nat = 0;
    proof {
        let r0 = a_star_begin(s, start, target);
        assert(costs@ =~= r0.cells.0);
        assert(backtrack@ =~= r0.cells.1);
        assert(heap@ =~= r0.cells.2);
        assert(open@ =~= r0.cells.3);
    }
    loop
        invariant_except_break
            a_star_state(s, entry_costs@, cap, start, costs@, backtrack@, heap@, open@, None),
            !a_star_after(s, start, target, find_nearest, entry_costs@, k).done,
            run_holds(a_star_after(s, start, target, find_nearest, entry_costs@, k), costs@, backtrack@, heap@, open@, min_distance as int, destination),
            closed_checked(s, target, find_nearest, min_distance as int, known_cells(costs@), heap_positions(s, heap@), None),
            destination matches Some(d) ==> !target.target_reached(index_position(s, d as int)),
            min_distance <= target.target_distance(start),
        invariant
            s == size,
            0 < size <= i32::MAX,
            size * size <= usize::MAX,
            s * s < i32::MAX,
            src == cell_index(s, start),
            passable == passable_cells(entry_costs@),
            in_map(s, start),
            entry_costs_fit(s, entry_costs@, cap),
            distances_fit(s, target, cap),
            forall|p: Vec2i| in_map(s, p) ==> #[trigger] target.target_defined(p),
            costs@.len() == s * s,
            backtrack@.len() == s * s,
            search_tree(costs@, backtrack@, src),
            costs@[src] == 0,
            steps_back(s, entry_costs@, costs@, backtrack@, src, false),
            forall|p: Vec2i| in_map(s, p) && #[trigger] costs@[cell_index(s, p)] != i32::MAX ==> connected(s, passable, start, p),
            cost_sum(costs@) >= 0,
            destination is None ==> min_distance == target.target_distance(start),
            destination matches Some(d) ==> {
                let pd = index_position(s, d as int);
                &&& d < s * s
                &&& in_map(s, pd)
                &&& d == cell_index(s, pd)
                &&& costs@[d as int] != i32::MAX
                &&& (target.target_reached(pd) || {
                    &&& find_nearest
                    &&& target.target_distance(pd) == min_distance
                    &&& min_distance < target.target_distance(start)
                })
            },
        ensures
            a_star_after(s, start, target, find_nearest, entry_costs@, k).done,
            run_holds(a_star_after(s, start, target, find_nearest, entry_costs@, k), costs@, backtrack@, heap@, open@, min_distance as int, destination),
            (destination matches Some(d) && target.target_reached(index_position(s, d as int))) || (heap@.len() == 0
                && a_star_state(s, entry_costs@, cap, start, costs@, backtrack@, heap@, open@, None)
                && closed_checked(s, target, find_nearest, min_distance as int, known_cells(costs@), heap_positions(s, heap@), None)
                && (destination matches Some(d) ==> !target.target_reached(index_position(s, d as int)))),
        decreases cost_sum(costs@), heap@.len(),
    {
        if heap.len() == 0 {
            proof {
                k = k + 1;
            }
            break;
        }
        let ghost h0 = heap@;
        let ghost kn0 = known_cells(costs@);
        let best = best_entry(&heap);
        let entry = heap.remove(best);
        let node_index = entry.1;
        proof {
            let hp0 = heap_positions(s, h0);
            assert(heap_positions(s, heap@) =~= hp0.remove(best as int));
            lemma_fill_pop(s, passable, start, kn0, hp0, best as int, heap_positions(s, heap@));
            lemma_checked_pop(s, target, find_nearest, min_distance as int, kn0, hp0, best as int, heap_positions(s, heap@));
            lemma_index_in_map(s, node_index as int);
        }
        let node = index_to_position(node_index, size);
        proof {
            assert(node == index_position(s, node_index as int));
            lemma_cell_index_in_range(s, node);
            assert(costs@[cell_index(s, node)] != i32::MAX);
        }
        let reached = target.has_reached(node);
        let distance = target.get_distance(node);
        if reached || min_distance > distance && find_nearest {
            min_distance = distance;
            destination = Some(node_index);
            if reached {
                proof {
                    k = k + 1;
                }
                break;
            }
        }
        open.set(node_index, true);
        let ghost c1 = costs@;
        let ghost h1 = heap@;
        let n1 = Vec2i::new(node.x + 1, node.y);
        a_star_relax(size, node, n1, target, entry_costs, costs, backtrack, &mut open, &mut heap, Ghost(cap), Ghost(start));
        proof {
            lemma_checked_discover(s, target, find_nearest, min_distance as int, known_cells(c1), heap_positions(s, h1), known_cells(costs@), heap_positions(s, heap@), node, n1);
        }
        let ghost c2 = costs@;
        let ghost h2 = heap@;
        let n2 = Vec2i::new(node.x - 1, node.y);
        a_star_relax(size, node, n2, target, entry_costs, costs, backtrack, &mut open, &mut heap, Ghost(cap), Ghost(start));
        proof {
            lemma_checked_discover(s, target, find_nearest, min_distance as int, known_cells(c2), heap_positions(s, h2), known_cells(costs@), heap_positions(s, heap@), node, n2);
        }
        let ghost c3 = costs@;
        let ghost h3 = heap@;
        let n3 = Vec2i::new(node.x, node.y + 1);
        a_star_relax(size, node, n3, target, entry_costs, costs, backtrack, &mut open, &mut heap, Ghost(cap), Ghost(start));
        proof {
            lemma_checked_discover(s, target, find_nearest, min_distance as int, known_cells(c3), heap_positions(s, h3), known_cells(costs@), heap_positions(s, heap@), node, n3);
        }
        let ghost c4 = costs@;
        let ghost h4 = heap@;
        let n4 = Vec2i::new(node.x, node.y - 1);
        a_star_relax(size, node, n4, target, entry_costs, costs, backtrack, &mut open, &mut heap, Ghost(cap), Ghost(start));
        proof {
            let c5 = costs@;
            lemma_checked_discover(s, target, find_nearest, min_distance as int, known_cells(c4), heap_positions(s, h4), known_cells(c5), heap_positions(s, heap@), node, n4);
            let r5 = known_cells(c5);
            assert forall|b: Vec2i|
                #[trigger] is_step(s, passable, node, b) && (b == n1 || b == n2 || b == n3 || b == n4) implies r5[cell_index(s, b)] by {
                lemma_cell_index_in_range(s, b);
                let j = cell_index(s, b);
                if b == n1 {
                    assert(known_cells(c2)[j]);
                    assert(known_cells(c3)[j]);
                    assert(known_cells(c4)[j]);
                } else if b == n2 {
                    assert(known_cells(c3)[j]);
                    assert(known_cells(c4)[j]);
                } else if b == n3 {
                    assert(known_cells(c4)[j]);
                }
            }
            lemma_close_node(s, passable, start, node, r5, heap_positions(s, heap@));
            lemma_checked_close(s, target, find_nearest, min_distance as int, r5, heap_positions(s, heap@), node);
            assert forall|j: int| 0 <= j < c1.len() && #[trigger] known_cells(c1)[j] implies r5[j] by {
                assert(known_cells(c2)[j]);
                assert(known_cells(c3)[j]);
                assert(known_cells(c4)[j]);
            }
            if destination is Some {
                let d = destination->0 as int;
                assert(known_cells(c1)[d]);
                assert(r5[d]);
            }
            assert forall|p: Vec2i| in_map(s, p) && #[trigger] c5[cell_index(s, p)] != i32::MAX implies connected(s, passable, start, p) by {
                lemma_cell_index_in_range(s, p);
                assert(r5[cell_index(s, p)]);
            }
            assert forall|i: int| 0 <= i < c5.len() implies #[trigger] c5[i] >= 0 by {}
            lemma_cost_sum_nonneg(c5);
            k = k + 1;
        }
    }
    proof {
        lemma_a_star_run(s, start, target, find_nearest, entry_costs@, k);
        if !(destination matches Some(d) && target.target_reached(index_position(s, d as int))) {
            lemma_exhausted(s, passable, start, target, find_nearest, min_distance as int, known_cells(costs@), heap_positions(s, heap@));
        }
    }
    destination
}


/// Along a branch of a search tree, from `d` back `k` steps, every cell has a known cost.
proof fn lemma_branch_known(costs: Seq<i32>, backtrack: Seq<usize>, src: int, d: int, k: nat)
    requires
        search_tree(costs, backtrack, src),
        0 <= d < costs.len(),
        costs[d] != i32::MAX,
        forall|i: nat| i < k ==> walk(backtrack, d, i) != src,
    ensures
        0 <= walk(backtrack, d, k) < costs.len(),
        costs[walk(backtrack, d, k)] != i32::MAX,
    decreases k,
{
    if k > 0 {
        lemma_branch_known(costs, backtrack, src, d, (k - 1) as nat);
        let u = walk(backtrack, d, (k - 1) as nat);
        assert(u != src);
        assert(costs[backtrack[u] as int] < costs[u]);
    }
}

/// One cell of a branch of a search tree, `i` steps back from `d`, before `src`: it lies on the
/// map, can be entered, and is one move from the cell it was reached from, the next one back.
proof fn lemma_branch_step(
    size: int,
    entry_costs: Seq<Option<i32>>,
    costs: Seq<i32>,
    backtrack: Seq<usize>,
    src: int,
    d: int,
    len: nat,
    exact: bool,
    i: nat,
)
    requires
        0 < size <= i32::MAX,
        costs.len() == size * size,
        search_tree(costs, backtrack, src),
        steps_back(size, entry_costs, costs, backtrack, src, exact),
        0 <= d < costs.len(),
        costs[d] != i32::MAX,
        first_hit(backtrack, src, d, len),
        i < len,
    ensures
        ({
            let v = walk(backtrack, d, i);
            &&& 0 <= v < size * size
            &&& v != src
            &&& in_map(size, index_position(size, v))
            &&& cell_index(size, index_position(size, v)) == v
            &&& entry_costs[v] is Some
            &&& adjacent_cells(size, backtrack[v] as int, v)
            &&& walk(backtrack, d, i + 1) == backtrack[v] as int
        }),
{
    lemma_branch_known(costs, backtrack, src, d, i);
    let v = walk(backtrack, d, i);
    assert(v != src);
    lemma_index_in_map(size, v);
    assert(backtrack[v] < backtrack.len());
    let i1: nat = i + 1;
    assert((i1 - 1) as nat == i);
}

/// Following a search tree back from `d` to `src`, read the other way round, is a path from
/// the cell next to `src` on that branch to `d`, through cells that can be entered.
pub proof fn lemma_branch_path(
    size: int,
    entry_costs: Seq<Option<i32>>,
    costs: Seq<i32>,
    backtrack: Seq<usize>,
    src: int,
    d: int,
    len: nat,
    exact: bool,
)
    requires
        0 < size <= i32::MAX,
        costs.len() == size * size,
        entry_costs.len() == size * size,
        search_tree(costs, backtrack, src),
        steps_back(size, entry_costs, costs, backtrack, src, exact),
        0 <= d < costs.len(),
        costs[d] != i32::MAX,
        first_hit(backtrack, src, d, len),
        len >= 1,
    ensures
        ({
            let first = walk(backtrack, d, (len - 1) as nat);
            &&& 0 <= first < size * size
            &&& backtrack[first] as int == src
            &&& manhattan(index_position(size, src), index_position(size, first)) == 1
            &&& entry_costs[first] is Some
            &&& in_map(size, index_position(size, first))
            &&& connected(size, passable_cells(entry_costs), index_position(size, first), index_position(size, d))
        }),
{
    let passable = passable_cells(entry_costs);
    let path = Seq::new(len, |j: int| index_position(size, walk(backtrack, d, (len - 1 - j) as nat)));
    let first = walk(backtrack, d, (len - 1) as nat);
    lemma_branch_step(size, entry_costs, costs, backtrack, src, d, len, exact, (len - 1) as nat);
    assert(walk(backtrack, d, len) == src);
    assert(backtrack[first] as int == src);
    lemma_index_in_map(size, src);
    assert(adjacent_cells(size, src, first));
    assert(manhattan(index_position(size, src), index_position(size, first)) == 1) by {
        reveal(adjacent_cells);
    }
    assert forall|i: int, j: int|
        0 <= i && j == i + 1 && j < path.len() implies #[trigger] is_step(size, passable, path[i], path[j]) by {
        let k: nat = (len - 1 - j) as nat;
        let v = walk(backtrack, d, k);
        lemma_branch_step(size, entry_costs, costs, backtrack, src, d, len, exact, k);
        assert(path[j] == index_position(size, v));
        assert((len - 1 - i) as nat == k + 1);
        assert(path[i] == index_position(size, backtrack[v] as int));
        assert(adjacent_cells(size, backtrack[v] as int, v));
        reveal(adjacent_cells);
        lemma_index_in_map(size, v);
        assert(passable[v]);
    }
    assert(path[0] == index_position(size, first));
    assert(path.last() == index_position(size, walk(backtrack, d, 0)));
    assert(is_path(size, passable, index_position(size, first), path));
}


/// The path a search keeps leads from the start, one move at a time through cells that can be
/// entered, to the cell found, when that is not the start itself.
pub proof fn lemma_found_path_is_walk(finder: PathFinder, entry_costs: Seq<Option<i32>>, exact: bool)
    requires
        finder.wf(),
        search_results(
            finder.spec_map_size(),
            entry_costs,
            finder.spec_start(),
            finder.spec_costs(),
            finder.spec_backtrack(),
            exact,
        ),
        finder.spec_path() == finder.reconstructed(Seq::empty()),
        finder.spec_destination() matches Some(d) && d != finder.src_index(),
        entry_costs.len() == finder.spec_map_size() * finder.spec_map_size(),
    ensures
        ({
            let size = finder.spec_map_size();
            let path = finder.spec_path();
            let d = finder.spec_destination()->0;
            &&& path.len() >= 1
            &&& path.last() == index_position(size, d as int)
            &&& manhattan(finder.spec_start(), path[0]) == 1
            &&& forall|i: int| 0 <= i < path.len() - 1 ==> manhattan(#[trigger] path[i], path[i + 1]) == 1
            &&& forall|i: int|
                0 <= i < path.len() ==> in_map(size, #[trigger] path[i]) && entry_costs[cell_index(size, path[i])] is Some
        }),
{
    let size = finder.spec_map_size();
    let costs = finder.spec_costs();
    let backtrack = finder.spec_backtrack();
    let src = finder.src_index();
    let d = finder.spec_destination()->0 as int;
    let start = finder.spec_start();
    finder.lemma_wf();
    lemma_cell_index_in_range(size, start);
    lemma_search_tree_reaches_src(costs, backtrack, src, d);
    let len = choose|len: nat| first_hit(backtrack, src, d, len);
    assert(len >= 1) by {
        if len == 0 {
            assert(walk(backtrack, d, 0) == d);
        }
    }
    let bp = back_path(backtrack, src, d);
    crate::path::lemma_first_hit_unique_pub(backtrack, src, d, len);
    assert(bp.len() == len);
    let path = finder.spec_path();
    let mapped = bp.map_values(|i: int| index_position(size, i));
    assert(path =~= (Seq::<Vec2i>::empty() + mapped).reverse());
    assert(path.len() == len);
    assert forall|j: int| 0 <= j < len implies #[trigger] path[j] == index_position(size, walk(backtrack, d, (len - 1 - j) as nat)) by {
        assert(path[j] == mapped[len - 1 - j]);
    }
    lemma_position_index_roundtrip(start.x as int, start.y as int, size);
    assert(index_position(size, src) == start);
    lemma_branch_path(size, entry_costs, costs, backtrack, src, d, len, exact);
    assert(path[0] == index_position(size, walk(backtrack, d, (len - 1) as nat)));
    assert(path.last() == index_position(size, walk(backtrack, d, 0)));
    assert forall|i: int| 0 <= i < path.len() - 1 implies manhattan(#[trigger] path[i], path[i + 1]) == 1 by {
        let k: nat = (len - 2 - i) as nat;
        lemma_branch_step(size, entry_costs, costs, backtrack, src, d, len, exact, k);
        let v = walk(backtrack, d, k);
        assert(path[i + 1] == index_position(size, v));
        assert((len - 1 - i) as nat == k + 1);
        assert(path[i] == index_position(size, backtrack[v] as int));
        reveal(adjacent_cells);
    }
    assert forall|i: int| 0 <= i < path.len() implies in_map(size, #[trigger] path[i]) && entry_costs[cell_index(size, path[i])] is Some by {
        let k: nat = (len - 1 - i) as nat;
        lemma_branch_step(size, entry_costs, costs, backtrack, src, d, len, exact, k);
    }
}

} // verus!
