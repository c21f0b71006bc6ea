use vstd::prelude::*;
use crate::grid::{in_map, index_to_position, lemma_cell_index_in_range, lemma_cell_index_injective, position_to_index};
use crate::range::FindPathTarget;
use crate::search::{a_star, a_star_run, bfs, bfs_run, distances_fit, entry_costs_fit, passable_cells, search_outcome, search_results};
use crate::vec2::{manhattan, trunc_div, Vec2i};

verus! {

/// Row-major index of a cell of a `size` by `size` map.
pub open spec fn cell_index(size: int, p: Vec2i) -> int {
    p.x + p.y * size
}

/// One move of the flood fill: from `a` to a passable cell `b` of the map next to it.
pub open spec fn is_step(size: int, passable: Seq<bool>, a: Vec2i, b: Vec2i) -> bool {
    in_map(size, b) && manhattan(a, b) == 1 && passable[cell_index(size, b)]
}

/// `path` starts at `start` and each of its cells is one move from the one before.
pub open spec fn is_path(size: int, passable: Seq<bool>, start: Vec2i, path: Seq<Vec2i>) -> bool {
    &&& path.len() > 0
    &&& path[0] == start
    &&& forall|i: int, j: int|
        0 <= i && j == i + 1 && j < path.len() ==> #[trigger] is_step(size, passable, path[i], path[j])
}

/// `p` can be reached from `start` moving between side-adjacent passable cells of the map.
pub open spec fn connected(size: int, passable: Seq<bool>, start: Vec2i, p: Vec2i) -> bool {
    exists|path: Seq<Vec2i>| #[trigger] is_path(size, passable, start, path) && path.last() == p
}

/// Number of `false` entries.
pub open spec fn count_false(s: Seq<bool>) -> nat
    decreases s.len(),
{
    if s.len() == 0 {
        0
    } else {
        count_false(s.drop_last()) + if s.last() {
            0nat
        } else {
            1nat
        }
    }
}

pub(crate) proof fn lemma_count_false_mark(s: Seq<bool>, i: int)
    requires
        0 <= i < s.len(),
        !s[i],
    ensures
        count_false(s.update(i, true)) + 1 == count_false(s),
    decreases s.len(),
{
    if i == s.len() - 1 {
        assert(s.update(i, true).drop_last() =~= s.drop_last());
    } else {
        lemma_count_false_mark(s.drop_last(), i);
        assert(s.update(i, true).drop_last() =~= s.drop_last().update(i, true));
    }
}

/// A cell side-adjacent to `a` is one of its four neighbours.
pub(crate) proof fn lemma_step_is_neighbour(a: Vec2i, b: Vec2i)
    requires
        manhattan(a, b) == 1,
    ensures
        (b.x == a.x + 1 && b.y == a.y) || (b.x == a.x - 1 && b.y == a.y) || (b.x == a.x && b.y == a.y + 1)
            || (b.x == a.x && b.y == a.y - 1),
{
}

/// Every cell of a path lies in a set that contains `start` and is closed under moves.
pub(crate) proof fn lemma_closed_set_contains_path(size: int, passable: Seq<bool>, start: Vec2i, path: Seq<Vec2i>, marked: Seq<bool>)
    requires
        marked[cell_index(size, start)],
        forall|a: Vec2i, b: Vec2i|
            in_map(size, a) && #[trigger] marked[cell_index(size, a)] && #[trigger] is_step(size, passable, a, b)
                ==> marked[cell_index(size, b)],
        in_map(size, start),
        is_path(size, passable, start, path),
    ensures
        in_map(size, path.last()),
        marked[cell_index(size, path.last())],
    decreases path.len(),
{
    if path.len() > 1 {
        let prefix = path.drop_last();
        assert forall|i: int, j: int|
            0 <= i && j == i + 1 && j < prefix.len() implies #[trigger] is_step(size, passable, prefix[i], prefix[j]) by {
            assert(is_step(size, passable, path[i], path[j]));
        }
        lemma_closed_set_contains_path(size, passable, start, prefix, marked);
        let n = path.len() - 1;
        assert(is_step(size, passable, path[n - 1], path[n]));
    }
}

/// The state of the flood fill between steps: every cell waiting on `discovered` lies on the map
/// and is marked, every marked cell is connected to `start`, and every marked cell that no
/// longer waits (other than `node`, whose neighbours are being looked at) has all the cells one
/// move away marked too.
pub open spec fn fill_state(
    size: int,
    passable: Seq<bool>,
    start: Vec2i,
    marked: Seq<bool>,
    discovered: Seq<Vec2i>,
    node: Option<Vec2i>,
) -> bool {
    &&& marked.len() == size * size
    &&& forall|j: int| 0 <= j < discovered.len() ==> in_map(size, #[trigger] discovered[j]) && marked[cell_index(size, discovered[j])]
    &&& forall|p: Vec2i| in_map(size, p) && #[trigger] marked[cell_index(size, p)] ==> connected(size, passable, start, p)
    &&& forall|a: Vec2i, b: Vec2i|
        in_map(size, a) && #[trigger] marked[cell_index(size, a)] && !discovered.contains(a) && node != Some(a)
            && #[trigger] is_step(size, passable, a, b) ==> marked[cell_index(size, b)]
}

/// Marking a cell one move away from `node` keeps the flood fill's state.
pub(crate) proof fn lemma_discover_keeps_state(
    size: int,
    passable: Seq<bool>,
    start: Vec2i,
    node: Vec2i,
    c: Vec2i,
    r0: Seq<bool>,
    d0: Seq<Vec2i>,
    r1: Seq<bool>,
    d1: Seq<Vec2i>,
)
    requires
        fill_state(size, passable, start, r0, d0, Some(node)),
        in_map(size, node),
        connected(size, passable, start, node),
        manhattan(node, c) == 1,
        passable.len() == size * size,
        ({
            let fresh = in_map(size, c) && passable[cell_index(size, c)] && !r0[cell_index(size, c)];
            &&& fresh ==> r1 == r0.update(cell_index(size, c), true)
            &&& fresh ==> d1 == d0.push(c)
            &&& !fresh ==> r1 == r0
            &&& !fresh ==> d1 == d0
        }),
    ensures
        fill_state(size, passable, start, r1, d1, Some(node)),
        in_map(size, c) && passable[cell_index(size, c)] ==> r1[cell_index(size, c)],
        forall|j: int| 0 <= j < r0.len() && r0[j] ==> r1[j],
        r1.len() == r0.len(),
{
    let fresh = in_map(size, c) && passable[cell_index(size, c)] && !r0[cell_index(size, c)];
    if fresh {
        lemma_cell_index_in_range(size, c);
        let path = choose|path: Seq<Vec2i>| #[trigger] is_path(size, passable, start, path) && path.last() == node;
        let longer = path.push(c);
        assert forall|i: int, j: int|
            0 <= i && j == i + 1 && j < longer.len() implies #[trigger] is_step(size, passable, longer[i], longer[j]) by {
            if j < path.len() {
                assert(is_step(size, passable, path[i], path[j]));
            }
        }
        assert(is_path(size, passable, start, longer) && longer.last() == c);
        assert forall|j: int| 0 <= j < d1.len() implies in_map(size, #[trigger] d1[j]) && r1[cell_index(size, d1[j])] by {
            if j < d0.len() {
                assert(d1[j] == d0[j]);
                lemma_cell_index_in_range(size, d0[j]);
            }
        }
        assert forall|p: Vec2i| in_map(size, p) && #[trigger] r1[cell_index(size, p)] implies connected(
            size,
            passable,
            start,
            p,
        ) by {
            lemma_cell_index_in_range(size, p);
            if cell_index(size, p) == cell_index(size, c) {
                lemma_cell_index_injective(size, p, c);
            }
        }
        assert forall|a: Vec2i, b: Vec2i|
            in_map(size, a) && #[trigger] r1[cell_index(size, a)] && !d1.contains(a) && Some(node) != Some(a)
                && #[trigger] is_step(size, passable, a, b) implies r1[cell_index(size, b)] by {
            lemma_cell_index_in_range(size, a);
            lemma_cell_index_in_range(size, b);
            if cell_index(size, a) == cell_index(size, c) {
                lemma_cell_index_injective(size, a, c);
                assert(d1[d1.len() - 1] == c);
            } else {
                if d0.contains(a) {
                    let j = choose|j: int| 0 <= j < d0.len() && d0[j] == a;
                    assert(d1[j] == a);
                }
            }
        }
    }
}

/// Once all four neighbours of `node` that are one move away are marked, `node` no longer needs
/// looking at.
pub(crate) proof fn lemma_close_node(size: int, passable: Seq<bool>, start: Vec2i, node: Vec2i, r: Seq<bool>, d: Seq<Vec2i>)
    requires
        fill_state(size, passable, start, r, d, Some(node)),
        forall|b: Vec2i|
            #[trigger] is_step(size, passable, node, b) && (b == Vec2i { x: (node.x + 1) as i32, y: node.y } || b
                == Vec2i { x: (node.x - 1) as i32, y: node.y } || b == Vec2i { x: node.x, y: (node.y + 1) as i32 }
                || b == Vec2i { x: node.x, y: (node.y - 1) as i32 }) ==> r[cell_index(size, b)],
        in_map(size, node),
    ensures
        fill_state(size, passable, start, r, d, None),
{
    assert forall|a: Vec2i, b: Vec2i|
        in_map(size, a) && #[trigger] r[cell_index(size, a)] && !d.contains(a) && None::<Vec2i> != Some(a)
            && #[trigger] is_step(size, passable, a, b) implies r[cell_index(size, b)] by {
        if a == node {
            lemma_step_is_neighbour(a, b);
        }
    }
}

/// The index reached from `v` after following `backtrack` `k` times.
pub open spec fn walk(backtrack: Seq<usize>, v: int, k: nat) -> int
    decreases k,
{
    if k == 0 {
        v
    } else {
        backtrack[walk(backtrack, v, (k - 1) as nat)] as int
    }
}

/// Following `backtrack` from `dst` meets `src` for the first time after `len` steps, and every
/// index passed before lies inside `backtrack`.
pub open spec fn first_hit(backtrack: Seq<usize>, src: int, dst: int, len: nat) -> bool {
    &&& walk(backtrack, dst, len) == src
    &&& forall|i: nat| i < len ==> walk(backtrack, dst, i) != src && 0 <= #[trigger] walk(backtrack, dst, i) < backtrack.len()
}

/// The indices `visit_reversed_shortest_path` visits: from `dst` following `backtrack` up to,
/// not including, `src`; nothing when `src == dst`.
pub open spec fn back_path(backtrack: Seq<usize>, src: int, dst: int) -> Seq<int> {
    if src == dst {
        Seq::empty()
    } else {
        let len = choose|len: nat| first_hit(backtrack, src, dst, len);
        Seq::new(len, |i: int| walk(backtrack, dst, i as nat))
    }
}

proof fn lemma_walk_shift(backtrack: Seq<usize>, v: int, k: nat)
    requires
        0 <= v < backtrack.len(),
    ensures
        walk(backtrack, v, k + 1) == walk(backtrack, backtrack[v] as int, k),
    decreases k,
{
    let k1: nat = k + 1;
    assert((k1 - 1) as nat == k);
    assert(walk(backtrack, v, k1) == backtrack[walk(backtrack, v, k)] as int);
    if k > 0 {
        lemma_walk_shift(backtrack, v, (k - 1) as nat);
        assert(walk(backtrack, backtrack[v] as int, k) == backtrack[walk(backtrack, backtrack[v] as int, (k - 1) as nat)] as int);
    }
}

pub(crate) proof fn lemma_first_hit_unique(backtrack: Seq<usize>, src: int, dst: int, a: nat, b: nat)
    requires
        first_hit(backtrack, src, dst, a),
        first_hit(backtrack, src, dst, b),
    ensures
        a == b,
{
    if a < b {
        assert(walk(backtrack, dst, a) != src);
    } else if b < a {
        assert(walk(backtrack, dst, b) != src);
    }
}

/// Following `backtrack` from `dst` meets `src` after one number of steps only, the one
/// `back_path` counts.
pub proof fn lemma_first_hit_unique_pub(backtrack: Seq<usize>, src: int, dst: int, len: nat)
    requires
        first_hit(backtrack, src, dst, len),
        src != dst,
    ensures
        back_path(backtrack, src, dst).len() == len,
        forall|i: int| 0 <= i < len ==> #[trigger] back_path(backtrack, src, dst)[i] == walk(backtrack, dst, i as nat),
{
    let chosen = choose|l: nat| first_hit(backtrack, src, dst, l);
    lemma_first_hit_unique(backtrack, src, dst, len, chosen);
}

/// The indices from `dst` following `backtrack` up to, not including, `src`, in the order the
/// walk back visits them.
pub fn visit_reversed_shortest_path(src: usize, dst: usize, backtrack: &Vec<usize>) -> (r: Vec<usize>)
    requires
        src != dst ==> exists|len: nat| first_hit(backtrack@, src as int, dst as int, len),
    ensures
        r@ == back_path(backtrack@, src as int, dst as int).map_values(|i: int| i as usize),
{
    let mut result: Vec<usize> = Vec::new();
    if src == dst {
        assert(result@ =~= back_path(backtrack@, src as int, dst as int).map_values(|i: int| i as usize));
        return result;
    }
    let ghost len = choose|len: nat| first_hit(backtrack@, src as int, dst as int, len);
    let mut index = dst;
    let ghost mut k: nat = 0;
    loop
        invariant_except_break
            k < len,
            index == walk(backtrack@, dst as int, k),
        invariant
            src != dst,
            first_hit(backtrack@, src as int, dst as int, len),
            result@.len() == k,
            forall|i: int| 0 <= i < k ==> result@[i] == walk(backtrack@, dst as int, i as nat),
        ensures
            result@.len() == len,
            forall|i: int| 0 <= i < len ==> result@[i] == walk(backtrack@, dst as int, i as nat),
        decreases len - k,
    {
        assert(0 <= walk(backtrack@, dst as int, k) < backtrack@.len());
        let prev = backtrack[index];
        result.push(index);
        proof {
            k = k + 1;
        }
        if prev == src {
            proof {
                if k < len {
                    assert(walk(backtrack@, dst as int, k) != src as int);
                }
            }
            break;
        }
        index = prev;
        proof {
            if k == len {
                assert(walk(backtrack@, dst as int, len) == src as int);
            }
        }
    }
    proof {
        let bp = back_path(backtrack@, src as int, dst as int);
        let chosen = choose|len: nat| first_hit(backtrack@, src as int, dst as int, len);
        lemma_first_hit_unique(backtrack@, src as int, dst as int, len, chosen);
        assert(result@ =~= bp.map_values(|i: int| i as usize));
    }
    result
}

/// Which cells of the map can be reached from a start cell.
#[derive(Debug)]
pub struct ReachabilityMap {
    map_size: usize,
    reachable: Vec<bool>,
}

impl ReachabilityMap {
    pub closed spec fn wf(self) -> bool {
        &&& self.map_size <= i32::MAX
        &&& self.map_size * self.map_size <= usize::MAX
        &&& self.reachable.len() == self.map_size * self.map_size
    }

    pub closed spec fn spec_map_size(self) -> int {
        self.map_size as int
    }

    pub closed spec fn reachable_at(self, p: Vec2i) -> bool {
        self.reachable@[cell_index(self.map_size as int, p)]
    }

    /// A map of `map_size` by `map_size` cells where nothing is reachable yet.
    pub fn new(map_size: usize) -> (r: Self)
        requires
            map_size <= i32::MAX,
            map_size * map_size <= usize::MAX,
        ensures
            r.wf(),
            r.spec_map_size() == map_size,
            forall|p: Vec2i| in_map(map_size as int, p) ==> !r.reachable_at(p),
    {
        let n = map_size * map_size;
        let mut reachable: Vec<bool> = Vec::new();
        let mut i: usize = 0;
        while i < n
            invariant
                i <= n,
                reachable.len() == i,
                forall|j: int| 0 <= j < i ==> !(#[trigger] reachable@[j]),
            decreases n - i,
        {
            reachable.push(false);
            i = i + 1;
        }
        let r = Self { map_size, reachable };
        proof {
            assert forall|p: Vec2i| in_map(map_size as int, p) implies !r.reachable_at(p) by {
                lemma_cell_index_in_range(map_size as int, p);
            }
        }
        r
    }

    pub fn is_reachable(&self, dst: Vec2i) -> (r: bool)
        requires
            self.wf(),
            in_map(self.spec_map_size(), dst),
        ensures
            r == self.reachable_at(dst),
    {
        proof {
            lemma_cell_index_in_range(self.map_size as int, dst);
        }
        self.reachable[position_to_index(dst, self.map_size)]
    }

    /// Marks `candidate` reachable and puts it on `discovered` when it lies on the map, is
    /// passable and is not marked yet.
    fn discover(&mut self, discovered: &mut Vec<Vec2i>, candidate: Vec2i, is_passable: &Vec<bool>)
        requires
            old(self).wf(),
            is_passable.len() == old(self).reachable.len(),
        ensures
            final(self).wf(),
            final(self).map_size == old(self).map_size,
            ({
                let size = old(self).map_size as int;
                let fresh = in_map(size, candidate) && is_passable@[cell_index(size, candidate)]
                    && !old(self).reachable@[cell_index(size, candidate)];
                &&& fresh ==> final(self).reachable@ == old(self).reachable@.update(cell_index(size, candidate), true)
                &&& fresh ==> final(discovered)@ == old(discovered)@.push(candidate)
                &&& fresh ==> count_false(final(self).reachable@) + 1 == count_false(old(self).reachable@)
                &&& !fresh ==> final(self).reachable@ == old(self).reachable@
                &&& !fresh ==> final(discovered)@ == old(discovered)@
            }),
    {
        let size = self.map_size as i32;
        if !(0 <= candidate.x && candidate.x < size && 0 <= candidate.y && candidate.y < size) {
            return;
        }
        proof {
            lemma_cell_index_in_range(self.map_size as int, candidate);
        }
        let index = position_to_index(candidate, self.map_size);
        if self.reachable[index] || !is_passable[index] {
            return;
        }
        proof {
            lemma_count_false_mark(self.reachable@, index as int);
        }
        self.reachable[index] = true;
        discovered.push(candidate);
    }

    /// Marks reachable exactly the cells that can be reached from `start` moving between
    /// side-adjacent cells that `is_passable` allows; `start` itself is always reachable.
    pub fn update(&mut self, start: Vec2i, is_passable: &Vec<bool>)
        requires
            old(self).wf(),
            in_map(old(self).spec_map_size(), start),
            is_passable.len() == old(self).spec_map_size() * old(self).spec_map_size(),
        ensures
            final(self).wf(),
            final(self).spec_map_size() == old(self).spec_map_size(),
            forall|p: Vec2i|
                in_map(final(self).spec_map_size(), p) ==> (final(self).reachable_at(p) <==> connected(
                    final(self).spec_map_size(),
                    is_passable@,
                    start,
                    p,
                )),
    {
        let ghost size = self.map_size as int;
        let ghost passable = is_passable@;
        let n = self.reachable.len();
        let mut i: usize = 0;
        while i < n
            invariant
                self.wf(),
                self.map_size == old(self).map_size,
                n == self.reachable.len(),
                i <= n,
                forall|j: int| 0 <= j < i ==> !(#[trigger] self.reachable@[j]),
            decreases n - i,
        {
            self.reachable[i] = false;
            i = i + 1;
        }
        proof {
            lemma_cell_index_in_range(size, start);
        }
        let start_index = position_to_index(start, self.map_size);
        self.reachable[start_index] = true;
        let mut discovered: Vec<Vec2i> = Vec::new();
        discovered.push(start);
        proof {
            let only = seq![start];
            assert(is_path(size, passable, start, only) && only.last() == start);
            assert forall|p: Vec2i| in_map(size, p) && #[trigger] self.reachable@[cell_index(size, p)] implies p == start by {
                lemma_cell_index_in_range(size, p);
                if cell_index(size, p) == cell_index(size, start) {
                    lemma_cell_index_injective(size, p, start);
                }
            }
            assert(discovered@[0] == start);
            assert(discovered@.contains(start));
            assert(fill_state(size, passable, start, self.reachable@, discovered@, None));
        }
        while discovered.len() > 0
            invariant
                self.wf(),
                self.map_size == old(self).map_size,
                size == self.map_size,
                passable == is_passable@,
                is_passable.len() == self.reachable.len(),
                in_map(size, start),
                self.reachable@[cell_index(size, start)],
                fill_state(size, passable, start, self.reachable@, discovered@, None),
            decreases count_false(self.reachable@), discovered.len(),
        {
            let ghost before = self.reachable@;
            let ghost stack = discovered@;
            let node = discovered.pop().unwrap();
            assert(node == stack[stack.len() - 1]);
            assert(in_map(size, node) && before[cell_index(size, node)]);
            proof {
                lemma_cell_index_in_range(size, node);
            }
            let node_index = position_to_index(node, self.map_size);
            self.reachable[node_index] = true;
            assert(self.reachable@ =~= before);
            proof {
                assert(discovered@ =~= stack.drop_last());
                assert forall|a: Vec2i, b: Vec2i|
                    in_map(size, a) && #[trigger] before[cell_index(size, a)] && !discovered@.contains(a) && Some(node)
                        != Some(a) && #[trigger] is_step(size, passable, a, b) implies before[cell_index(size, b)] by {
                    if stack.contains(a) {
                        let j = choose|j: int| 0 <= j < stack.len() && stack[j] == a;
                        if j < stack.len() - 1 {
                            assert(discovered@[j] == a);
                        }
                    }
                }
                assert(fill_state(size, passable, start, before, discovered@, Some(node)));
                assert(connected(size, passable, start, node));
            }
            let ghost r0 = self.reachable@;
            let ghost d0 = discovered@;
            let n1 = Vec2i::new(node.x + 1, node.y);
            self.discover(&mut discovered, n1, is_passable);
            proof {
                lemma_discover_keeps_state(size, passable, start, node, n1, r0, d0, self.reachable@, discovered@);
            }
            let ghost r1 = self.reachable@;
            let ghost d1 = discovered@;
            let n2 = Vec2i::new(node.x - 1, node.y);
            self.discover(&mut discovered, n2, is_passable);
            proof {
                lemma_discover_keeps_state(size, passable, start, node, n2, r1, d1, self.reachable@, discovered@);
            }
            let ghost r2 = self.reachable@;
            let ghost d2 = discovered@;
            let n3 = Vec2i::new(node.x, node.y + 1);
            self.discover(&mut discovered, n3, is_passable);
            proof {
                lemma_discover_keeps_state(size, passable, start, node, n3, r2, d2, self.reachable@, discovered@);
            }
            let ghost r3 = self.reachable@;
            let ghost d3 = discovered@;
            let n4 = Vec2i::new(node.x, node.y - 1);
            self.discover(&mut discovered, n4, is_passable);
            proof {
                let r4 = self.reachable@;
                lemma_discover_keeps_state(size, passable, start, node, n4, r3, d3, r4, discovered@);
                assert forall|b: Vec2i|
                    #[trigger] is_step(size, passable, node, b) && (b == n1 || b == n2 || b == n3 || b == n4) implies r4[cell_index(size, b)] by {
                    lemma_cell_index_in_range(size, b);
                    let j = cell_index(size, b);
                    if b == n1 {
                        assert(r1[j]);
                        assert(r2[j]);
                        assert(r3[j]);
                    } else if b == n2 {
                        assert(r2[j]);
                        assert(r3[j]);
                    } else if b == n3 {
                        assert(r3[j]);
                    }
                }
                lemma_close_node(size, passable, start, node, r4, discovered@);
                lemma_cell_index_in_range(size, start);
            }
        }
        proof {
            assert forall|p: Vec2i| in_map(size, p) implies (self.reachable_at(p) <==> connected(size, passable, start, p)) by {
                if connected(size, passable, start, p) {
                    let path = choose|path: Seq<Vec2i>| #[trigger] is_path(size, passable, start, path) && path.last() == p;
                    lemma_closed_set_contains_path(size, passable, start, path, self.reachable@);
                }
            }
        }
    }
}


/// The cell at index `i` of a map with `size` columns.
pub open spec fn index_position(size: int, i: int) -> Vec2i {
    Vec2i { x: (i % size) as i32, y: (i / size) as i32 }
}

/// Every index of `backtrack` points inside it, and following `backtrack` from a cell with a
/// known cost (not `i32::MAX`) other than `src` leads to a cell of strictly smaller, non-negative
/// cost.
pub open spec fn search_tree(costs: Seq<i32>, backtrack: Seq<usize>, src: int) -> bool {
    &&& costs.len() == backtrack.len()
    &&& forall|v: int| 0 <= v < backtrack.len() ==> #[trigger] backtrack[v] < backtrack.len()
    &&& forall|v: int| 0 <= v < costs.len() && #[trigger] costs[v] != i32::MAX ==> costs[v] >= 0
    &&& forall|v: int|
        #![trigger backtrack[v]]
        0 <= v < costs.len() && v != src && costs[v] != i32::MAX ==> costs[backtrack[v] as int] < costs[v]
}

/// From any cell with a known cost, following a search tree reaches `src`.
pub(crate) proof fn lemma_search_tree_reaches_src(costs: Seq<i32>, backtrack: Seq<usize>, src: int, v: int)
    requires
        search_tree(costs, backtrack, src),
        0 <= v < costs.len(),
        costs[v] != i32::MAX,
    ensures
        exists|len: nat| first_hit(backtrack, src, v, len),
    decreases costs[v],
{
    if v == src {
        assert(first_hit(backtrack, src, v, 0));
    } else {
        let b = backtrack[v] as int;
        assert(costs[b] < costs[v]);
        lemma_search_tree_reaches_src(costs, backtrack, src, b);
        let len = choose|len: nat| first_hit(backtrack, src, b, len);
        lemma_walk_shift(backtrack, v, len);
        assert forall|i: nat| i < len + 1 implies walk(backtrack, v, i) != src && 0 <= #[trigger] walk(
            backtrack,
            v,
            i,
        ) < backtrack.len() by {
            if i > 0 {
                lemma_walk_shift(backtrack, v, (i - 1) as nat);
                assert(walk(backtrack, b, (i - 1) as nat) != src);
            }
        }
        assert(first_hit(backtrack, src, v, len + 1));
    }
}

/// What stands on a cell, as far as entering the cell is concerned.
#[derive(Clone, Copy, Debug, PartialEq, Eq)]
pub struct TileOccupant {
    /// Whether the entity is of a kind that moves.
    pub can_move: bool,
    /// Whether a move away from the entity's position is planned.
    pub has_move_from: bool,
    /// Whether the entity is a resource.
    pub is_resource: bool,
    pub health: i32,
}

/// Everything about a cell that decides what entering it costs.
#[derive(Clone, Copy, Debug, PartialEq, Eq)]
pub struct CellState {
    /// Whether the cell is locked.
    pub locked: bool,
    /// The entity standing on the cell, if any.
    pub occupant: Option<TileOccupant>,
    /// Whether a move onto the cell is planned.
    pub has_move_to: bool,
}

/// The remainder of `a` divided by `b` with the quotient rounded toward zero: it takes the
/// sign of `a`.
pub open spec fn trunc_rem(a: int, b: int) -> int {
    if a >= 0 {
        a % b
    } else {
        -((-a) % b)
    }
}

/// One step plus the hits needed to clear a resource of `health` with `damage` per hit: the
/// quotient rounded toward zero, one more when something remains.
pub open spec fn resource_entry_cost(health: int, damage: int) -> int {
    1 + trunc_div(health, damage) + if trunc_rem(health, damage) != 0 {
        1int
    } else {
        0int
    }
}

/// What entering a cell costs: nothing enters a locked cell, a cell a move onto is planned for,
/// a cell of a unit that is not moving away or of a building; a resource takes as many hits as
/// `resource_entry_cost` counts when there is damage to deal; anything else takes one step.
pub open spec fn spec_entry_cost(cell: CellState, damage: int) -> Option<int> {
    if cell.locked {
        None
    } else {
        match cell.occupant {
            Some(o) => if o.can_move {
                if !o.has_move_from || cell.has_move_to {
                    None
                } else {
                    Some(1)
                }
            } else if o.is_resource && damage > 0 {
                Some(resource_entry_cost(o.health as int, damage))
            } else {
                None
            },
            None => if cell.has_move_to {
                None
            } else {
                Some(1)
            },
        }
    }
}

/// The entry cost of a cell fits an `i32`.
pub open spec fn entry_cost_fits(cell: CellState, damage: int) -> bool {
    match cell.occupant {
        Some(o) => !o.can_move && o.is_resource && damage > 0 ==> resource_entry_cost(o.health as int, damage)
            <= i32::MAX,
        None => true,
    }
}

/// The cost of entering `cell` when `damage` is dealt per hit, or `None` when it cannot be
/// entered.
pub fn get_cost(cell: CellState, damage: i32) -> (r: Option<i32>)
    requires
        entry_cost_fits(cell, damage as int),
    ensures
        is_entry_cost(cell, damage as int, r),
{
    if cell.locked {
        return None;
    }
    match cell.occupant {
        Some(entity) => {
            if entity.can_move {
                if !entity.has_move_from {
                    return None;
                }
            } else {
                if entity.is_resource && damage > 0 {
                    let remainder: i32 = if entity.health % damage != 0 {
                        1
                    } else {
                        0
                    };
                    return Some(1 + entity.health / damage + remainder);
                }
                return None;
            }
        },
        None => {},
    }
    if cell.has_move_to {
        return None;
    }
    Some(1)
}

/// Whether `r` is what entering `cell` costs: `None` exactly when it cannot be entered.
pub open spec fn is_entry_cost(cell: CellState, damage: int, r: Option<i32>) -> bool {
    match r {
        Some(c) => spec_entry_cost(cell, damage) == Some(c as int),
        None => spec_entry_cost(cell, damage) is None,
    }
}

/// The entry cost of every cell of `cells`, in the same order, as a search takes them.
pub fn entry_costs(cells: &Vec<CellState>, damage: i32) -> (r: Vec<Option<i32>>)
    requires
        forall|i: int| 0 <= i < cells.len() ==> entry_cost_fits(#[trigger] cells@[i], damage as int),
    ensures
        r.len() == cells.len(),
        forall|i: int| 0 <= i < cells.len() ==> is_entry_cost(#[trigger] cells@[i], damage as int, r@[i]),
{
    let mut r: Vec<Option<i32>> = Vec::new();
    let mut i: usize = 0;
    while i < cells.len()
        invariant
            i <= cells.len(),
            r.len() == i,
            forall|i: int| 0 <= i < cells.len() ==> entry_cost_fits(#[trigger] cells@[i], damage as int),
            forall|j: int| 0 <= j < i ==> is_entry_cost(#[trigger] cells@[j], damage as int, r@[j]),
        decreases cells.len() - i,
    {
        let cost = get_cost(cells[i], damage);
        r.push(cost);
        i = i + 1;
    }
    r
}

/// The cells of a shortest-path search: the cost to reach each cell, the cell each was reached
/// from, the cell found, and the path to it.
pub struct PathFinder {
    start: Vec2i,
    map_size: usize,
    costs: Vec<i32>,
    backtrack: Vec<usize>,
    destination: Option<usize>,
    path: Vec<Vec2i>,
}

impl PathFinder {
    pub closed spec fn spec_start(self) -> Vec2i {
        self.start
    }

    pub closed spec fn spec_map_size(self) -> int {
        self.map_size as int
    }

    pub closed spec fn spec_costs(self) -> Seq<i32> {
        self.costs@
    }

    pub closed spec fn spec_backtrack(self) -> Seq<usize> {
        self.backtrack@
    }

    pub closed spec fn spec_destination(self) -> Option<usize> {
        self.destination
    }

    pub closed spec fn spec_path(self) -> Seq<Vec2i> {
        self.path@
    }

    pub open spec fn src_index(self) -> int {
        cell_index(self.spec_map_size(), self.spec_start())
    }

    pub closed spec fn wf(self) -> bool {
        &&& self.map_size <= i32::MAX
        &&& self.map_size * self.map_size <= usize::MAX
        &&& in_map(self.map_size as int, self.start)
        &&& self.costs.len() == self.map_size * self.map_size
        &&& self.backtrack.len() == self.map_size * self.map_size
        &&& search_tree(self.costs@, self.backtrack@, self.src_index())
        &&& (self.destination matches Some(d) ==> d < self.costs.len() && self.costs@[d as int] != i32::MAX)
    }

    /// What a well-formed search state holds: its map fits the machine, its start lies on the
    /// map, its costs and back steps form a search tree over the map, and the destination, if
    /// any, has a known cost.
    pub proof fn lemma_wf(self)
        requires
            self.wf(),
        ensures
            0 < self.spec_map_size() <= i32::MAX,
            self.spec_map_size() * self.spec_map_size() <= usize::MAX,
            in_map(self.spec_map_size(), self.spec_start()),
            self.spec_costs().len() == self.spec_map_size() * self.spec_map_size(),
            self.spec_backtrack().len() == self.spec_map_size() * self.spec_map_size(),
            search_tree(self.spec_costs(), self.spec_backtrack(), self.src_index()),
            self.spec_destination() matches Some(d) ==> d < self.spec_costs().len() && self.spec_costs()[d as int] != i32::MAX,
    {
    }

    /// The cells along the path found, from the first step up to the destination: the indices
    /// from the destination back to the start, as positions, after whatever `prefix` held, all
    /// reversed.
    pub open spec fn reconstructed(self, prefix: Seq<Vec2i>) -> Seq<Vec2i> {
        match self.spec_destination() {
            Some(d) => (prefix + back_path(self.spec_backtrack(), self.src_index(), d as int).map_values(
                |i: int| index_position(self.spec_map_size(), i),
            )).reverse(),
            None => prefix,
        }
    }

    /// A search from `start` over a `map_size` by `map_size` map that has not run yet.
    pub fn new(start: Vec2i, map_size: usize) -> (r: Self)
        requires
            map_size * map_size <= usize::MAX,
        ensures
            map_size <= i32::MAX && in_map(map_size as int, start) ==> r.wf(),
            r.spec_start() == start,
            r.spec_map_size() == map_size,
            forall|v: int| 0 <= v < map_size * map_size ==> r.spec_costs()[v] == i32::MAX,
            forall|v: int| 0 <= v < map_size * map_size ==> r.spec_backtrack()[v] == v,
            r.spec_costs().len() == map_size * map_size,
            r.spec_backtrack().len() == map_size * map_size,
            r.spec_destination() == None::<usize>,
            r.spec_path() == Seq::<Vec2i>::empty(),
    {
        let n = map_size * map_size;
        let mut costs: Vec<i32> = Vec::new();
        let mut backtrack: Vec<usize> = Vec::new();
        let mut i: usize = 0;
        while i < n
            invariant
                i <= n,
                costs.len() == i,
                backtrack.len() == i,
                forall|v: int| 0 <= v < i ==> #[trigger] costs@[v] == i32::MAX,
                forall|v: int| 0 <= v < i ==> #[trigger] backtrack@[v] == v,
            decreases n - i,
        {
            costs.push(i32::MAX);
            backtrack.push(i);
            i = i + 1;
        }
        Self { start, map_size, costs, backtrack, destination: None, path: Vec::new() }
    }

    pub fn path(&self) -> (r: &Vec<Vec2i>)
        ensures
            r@ == self.spec_path(),
    {
        &self.path
    }

    /// The cost of reaching the destination found, if any.
    pub fn cost(&self) -> (r: Option<i32>)
        requires
            self.wf() || self.spec_destination() is None,
        ensures
            r == match self.spec_destination() {
                Some(d) => Some(self.spec_costs()[d as int]),
                None => None,
            },
    {
        match self.destination {
            Some(v) => Some(self.costs[v]),
            None => None,
        }
    }

    /// Searches from the start with A* (scores: path cost plus distance to `target`) for a cell
    /// that reaches `target` (with `find_nearest`, for the cell nearest to it when none does),
    /// where each cell costs `entry_costs` to enter (`None`: it cannot be entered), and keeps the
    /// path to the cell found.
    pub fn find_with_a_star<T: FindPathTarget>(&mut self, target: &T, find_nearest: bool, entry_costs: &Vec<Option<i32>>)
        requires
            old(self).wf(),
            exists|cap: int|
                entry_costs_fit(old(self).spec_map_size(), entry_costs@, cap) && distances_fit(
                    old(self).spec_map_size(),
                    target,
                    cap,
                ),
            forall|p: Vec2i| in_map(old(self).spec_map_size(), p) ==> #[trigger] target.target_defined(p),
        ensures
            final(self).wf(),
            final(self).spec_start() == old(self).spec_start(),
            final(self).spec_map_size() == old(self).spec_map_size(),
            search_results(
                final(self).spec_map_size(),
                entry_costs@,
                final(self).spec_start(),
                final(self).spec_costs(),
                final(self).spec_backtrack(),
                false,
            ),
            search_outcome(
                final(self).spec_map_size(),
                passable_cells(entry_costs@),
                final(self).spec_start(),
                target,
                find_nearest,
                final(self).spec_destination(),
            ),
            final(self).spec_path() == final(self).reconstructed(Seq::empty()),
            final(self).spec_costs() == a_star_run(
                old(self).spec_map_size(),
                old(self).spec_start(),
                target,
                find_nearest,
                entry_costs@,
            ).cells.0,
            final(self).spec_backtrack() == a_star_run(
                old(self).spec_map_size(),
                old(self).spec_start(),
                target,
                find_nearest,
                entry_costs@,
            ).cells.1,
            final(self).spec_destination() == a_star_run(
                old(self).spec_map_size(),
                old(self).spec_start(),
                target,
                find_nearest,
                entry_costs@,
            ).destination,
    {
        self.reset();
        proof {
            assert forall|v: int| 0 <= v < self.map_size * self.map_size implies self.backtrack@[v] == v by {
                assert(self.spec_backtrack()[v] == v);
            }
            assert forall|v: int| 0 <= v < self.map_size * self.map_size implies self.costs@[v] == i32::MAX by {
                assert(self.spec_costs()[v] == i32::MAX);
            }
        }
        let destination = a_star(self.map_size, self.start, target, find_nearest, entry_costs, &mut self.costs, &mut self.backtrack);
        self.destination = destination;
        self.reconstruct_path();
    }

    /// Searches breadth-first from the start for a cell that reaches `target` (with
    /// `find_nearest`, for the cell nearest to it when none does), where each cell costs
    /// `entry_costs` to enter (`None`: it cannot be entered), and keeps the path to the cell found.
    pub fn find_with_bfs<T: FindPathTarget>(&mut self, target: &T, find_nearest: bool, entry_costs: &Vec<Option<i32>>)
        requires
            old(self).wf(),
            exists|cap: int| entry_costs_fit(old(self).spec_map_size(), entry_costs@, cap),
            forall|p: Vec2i| in_map(old(self).spec_map_size(), p) ==> #[trigger] target.target_defined(p),
        ensures
            final(self).wf(),
            final(self).spec_start() == old(self).spec_start(),
            final(self).spec_map_size() == old(self).spec_map_size(),
            search_results(
                final(self).spec_map_size(),
                entry_costs@,
                final(self).spec_start(),
                final(self).spec_costs(),
                final(self).spec_backtrack(),
                true,
            ),
            search_outcome(
                final(self).spec_map_size(),
                passable_cells(entry_costs@),
                final(self).spec_start(),
                target,
                find_nearest,
                final(self).spec_destination(),
            ),
            final(self).spec_path() == final(self).reconstructed(Seq::empty()),
            final(self).spec_costs() == bfs_run(
                old(self).spec_map_size(),
                old(self).spec_start(),
                target,
                find_nearest,
                entry_costs@,
            ).cells.0,
            final(self).spec_backtrack() == bfs_run(
                old(self).spec_map_size(),
                old(self).spec_start(),
                target,
                find_nearest,
                entry_costs@,
            ).cells.1,
            final(self).spec_destination() == bfs_run(
                old(self).spec_map_size(),
                old(self).spec_start(),
                target,
                find_nearest,
                entry_costs@,
            ).destination,
    {
        self.reset();
        proof {
            assert forall|v: int| 0 <= v < self.map_size * self.map_size implies self.backtrack@[v] == v by {
                assert(self.spec_backtrack()[v] == v);
            }
            assert forall|v: int| 0 <= v < self.map_size * self.map_size implies self.costs@[v] == i32::MAX by {
                assert(self.spec_costs()[v] == i32::MAX);
            }
        }
        let destination = bfs(self.map_size, self.start, target, find_nearest, entry_costs, &mut self.costs, &mut self.backtrack);
        self.destination = destination;
        self.reconstruct_path();
    }

    /// Forgets the last search.
    fn reset(&mut self)
        requires
            old(self).wf(),
        ensures
            final(self).wf(),
            final(self).spec_start() == old(self).spec_start(),
            final(self).spec_map_size() == old(self).spec_map_size(),
            final(self).spec_costs().len() == old(self).spec_costs().len(),
            forall|v: int| 0 <= v < final(self).spec_costs().len() ==> final(self).spec_costs()[v] == i32::MAX,
            forall|v: int| 0 <= v < final(self).spec_costs().len() ==> final(self).spec_backtrack()[v] == v,
            final(self).spec_destination() == None::<usize>,
            final(self).spec_path() == Seq::<Vec2i>::empty(),
    {
        let n = self.costs.len();
        let mut i: usize = 0;
        while i < n
            invariant
                n == self.costs.len(),
                self.backtrack.len() == n,
                self.start == old(self).start,
                self.map_size == old(self).map_size,
                self.map_size <= i32::MAX,
                self.map_size * self.map_size <= usize::MAX,
                in_map(self.map_size as int, self.start),
                n == self.map_size * self.map_size,
                i <= n,
                forall|v: int| 0 <= v < i ==> #[trigger] self.costs@[v] == i32::MAX,
                forall|v: int| 0 <= v < n ==> #[trigger] self.backtrack@[v] < n,
                forall|v: int| 0 <= v < i ==> #[trigger] self.backtrack@[v] == v,
            decreases n - i,
        {
            self.costs[i] = i32::MAX;
            self.backtrack[i] = i;
            i = i + 1;
        }
        self.destination = None;
        self.path.clear();
    }

    /// Appends the path to the destination found, as `reconstructed` describes it.
    fn reconstruct_path(&mut self)
        requires
            old(self).wf(),
        ensures
            final(self).wf(),
            final(self).spec_start() == old(self).spec_start(),
            final(self).spec_map_size() == old(self).spec_map_size(),
            final(self).spec_costs() == old(self).spec_costs(),
            final(self).spec_backtrack() == old(self).spec_backtrack(),
            final(self).spec_destination() == old(self).spec_destination(),
            final(self).spec_path() == old(self).reconstructed(old(self).spec_path()),
    {
        if let Some(dst) = self.destination {
            let size = self.map_size;
            proof {
                lemma_cell_index_in_range(size as int, self.start);
                lemma_search_tree_reaches_src(self.costs@, self.backtrack@, self.src_index(), dst as int);
            }
            let src = position_to_index(self.start, size);
            let indices = visit_reversed_shortest_path(src, dst, &self.backtrack);
            let ghost bp = back_path(self.backtrack@, src as int, dst as int);
            let ghost prefix = self.path@;
            proof {
                let len = choose|len: nat| first_hit(self.backtrack@, src as int, dst as int, len);
                assert forall|j: int| 0 <= j < bp.len() implies 0 <= #[trigger] bp[j] < size * size by {
                    assert(bp[j] == walk(self.backtrack@, dst as int, j as nat));
                }
            }
            let mut i: usize = 0;
            while i < indices.len()
                invariant
                    indices@ == bp.map_values(|i: int| i as usize),
                    0 < size <= i32::MAX,
                    size * size <= usize::MAX,
                    i <= indices.len(),
                    self.path@ == prefix + bp.take(i as int).map_values(|i: int| index_position(size as int, i)),
                    forall|j: int| 0 <= j < bp.len() ==> 0 <= #[trigger] bp[j] < size * size,
                    self.start == old(self).start,
                    self.map_size == size,
                    self.costs == old(self).costs,
                    self.backtrack == old(self).backtrack,
                    self.destination == old(self).destination,
                decreases indices.len() - i,
            {
                let index = indices[i];
                assert(0 <= bp[i as int] < size * size);
                assert(indices@[i as int] == bp[i as int] as usize);
                assert(index == bp[i as int]);
                assert(index / size < size) by (nonlinear_arith)
                    requires
                        index < size * size,
                        0 < size,
                ;
                let p = index_to_position(index, size);
                assert(0 <= index % size < size) by (nonlinear_arith)
                    requires
                        0 < size,
                ;
                assert(p.x == (bp[i as int] % size as int) as i32);
                assert(p.y == (bp[i as int] / size as int) as i32);
                assert(p == index_position(size as int, bp[i as int]));
                self.path.push(p);
                assert(bp.take(i + 1).map_values(|i: int| index_position(size as int, i)) =~= bp.take(i as int).map_values(
                    |i: int| index_position(size as int, i),
                ).push(index_position(size as int, bp[i as int])));
                i = i + 1;
            }
            assert(bp.take(indices.len() as int) =~= bp);
            let ghost forward = self.path@;
            let mut reversed: Vec<Vec2i> = Vec::new();
            let mut j = self.path.len();
            while j > 0
                invariant
                    j <= forward.len(),
                    self.path@ == forward,
                    reversed@.len() == forward.len() - j,
                    forall|k: int| 0 <= k < reversed@.len() ==> #[trigger] reversed@[k] == forward[forward.len() - 1 - k],
                decreases j,
            {
                j = j - 1;
                reversed.push(self.path[j]);
            }
            self.path = reversed;
            assert(self.path@ =~= forward.reverse());
        }
    }
}
} // verus!
