use vstd::prelude::*;
use crate::grid::{
    border_vec, lemma_cell_index_in_range, lemma_cell_index_injective, lemma_rect_cells_members, neighbour_cells,
    neighbour_vec, rect_between, rect_border_cells, rect_vec, visit_range, visit_range_cells,
    visit_square,
};
use crate::rect::Rect;
use crate::vec2::{in_i32, Vec2i};

verus! {

/// What a map cell holds as far as the player knows.
#[derive(Debug, Copy, Clone, PartialEq, Eq, Ord, PartialOrd, Structural)]
pub enum Tile {
    Unknown,
    Empty,
    Entity(i32),
    Outside,
}

/// What the map needs to know of an entity: the square it occupies, whom it belongs to, and how
/// far it sees.
#[derive(Debug, Copy, Clone, PartialEq, Eq)]
pub struct MapEntity {
    pub id: i32,
    pub player_id: Option<i32>,
    pub position: Vec2i,
    pub size: i32,
    pub sight_range: i32,
}

impl MapEntity {
    pub open spec fn covers(self, p: Vec2i) -> bool {
        self.position.x <= p.x < self.position.x + self.size && self.position.y <= p.y
            < self.position.y + self.size
    }
}

/// The id of the last entity of `es` whose square covers `p`.
pub open spec fn covering_entity(es: Seq<MapEntity>, p: Vec2i) -> Option<i32>
    decreases es.len(),
{
    if es.len() == 0 {
        None
    } else if es.last().covers(p) {
        Some(es.last().id)
    } else {
        covering_entity(es.drop_last(), p)
    }
}

/// The cells of a `size` by `size` map.
pub open spec fn map_bounds(size: int) -> Rect {
    Rect { min: Vec2i { x: 0, y: 0 }, max: Vec2i { x: size as i32, y: size as i32 } }
}

/// Whether one of the entities of `es` that belong to `my_id` sees `p`.
pub open spec fn revealed(es: Seq<MapEntity>, my_id: i32, size: int, p: Vec2i) -> bool {
    exists|i: int|
        0 <= i < es.len() && es[i].player_id == Some(my_id) && #[trigger] visit_range_cells(
            es[i].position,
            es[i].size as int,
            es[i].sight_range as int,
            map_bounds(size),
        ).contains(p)
}

/// The tile the map shows at `p` once it has been updated with the entities `es`: the last
/// entity covering the cell, else empty where there is no fog of war or one of my entities sees
/// the cell, else unknown.
pub open spec fn expected_tile(fog_of_war: bool, my_id: i32, es: Seq<MapEntity>, size: int, p: Vec2i) -> Tile {
    match covering_entity(es, p) {
        Some(id) => Tile::Entity(id),
        None => if !fog_of_war || revealed(es, my_id, size, p) {
            Tile::Empty
        } else {
            Tile::Unknown
        },
    }
}

/// Whether an entity lies inside a `size` by `size` map and its sight can be computed without
/// overflow.
pub open spec fn valid_map_entity(e: MapEntity, size: int) -> bool {
    &&& 0 <= e.position.x
    &&& 0 <= e.position.y
    &&& 0 <= e.size
    &&& e.position.x + e.size <= size
    &&& e.position.y + e.size <= size
    &&& 0 <= e.sight_range
    &&& in_i32(e.position.x + e.size + e.sight_range)
    &&& in_i32(e.position.y + e.size + e.sight_range)
    &&& in_i32(e.position.x - e.sight_range)
    &&& in_i32(e.position.y - e.sight_range)
}

proof fn lemma_take_push_contains(s: Seq<Vec2i>, j: int, p: Vec2i)
    requires
        0 <= j < s.len(),
    ensures
        s.take(j + 1).contains(p) <==> (s.take(j).contains(p) || p == s[j]),
{
    assert(s.take(j + 1) =~= s.take(j).push(s[j]));
    if s.take(j + 1).contains(p) {
        let t = s.take(j + 1);
        let i = choose|i: int| 0 <= i < t.len() && t[i] == p;
        if i < j {
            assert(s.take(j)[i] == p);
        }
    }
    if s.take(j).contains(p) {
        let t = s.take(j);
        let i = choose|i: int| 0 <= i < t.len() && t[i] == p;
        assert(s.take(j + 1)[i] == p);
    }
    if p == s[j] {
        assert(s.take(j + 1)[j] == p);
    }
}

proof fn lemma_covering_step(es: Seq<MapEntity>, k: int, p: Vec2i)
    requires
        0 <= k < es.len(),
    ensures
        covering_entity(es.take(k + 1), p) == if es[k].covers(p) {
            Some(es[k].id)
        } else {
            covering_entity(es.take(k), p)
        },
{
    assert(es.take(k + 1).drop_last() =~= es.take(k));
    assert(es.take(k + 1).last() == es[k]);
}

proof fn lemma_revealed_step(es: Seq<MapEntity>, k: int, my_id: i32, size: int, p: Vec2i)
    requires
        0 <= k < es.len(),
    ensures
        revealed(es.take(k + 1), my_id, size, p) <==> (revealed(es.take(k), my_id, size, p) || (
        es[k].player_id == Some(my_id) && visit_range_cells(
            es[k].position,
            es[k].size as int,
            es[k].sight_range as int,
            map_bounds(size),
        ).contains(p))),
{
    let now = es.take(k + 1);
    let prior = es.take(k);
    if revealed(now, my_id, size, p) {
        let i = choose|i: int|
            0 <= i < now.len() && now[i].player_id == Some(my_id) && #[trigger] visit_range_cells(
                now[i].position,
                now[i].size as int,
                now[i].sight_range as int,
                map_bounds(size),
            ).contains(p);
        if i < k {
            assert(prior[i] == now[i]);
        }
    }
    if revealed(prior, my_id, size, p) {
        let i = choose|i: int|
            0 <= i < prior.len() && prior[i].player_id == Some(my_id) && #[trigger] visit_range_cells(
                prior[i].position,
                prior[i].size as int,
                prior[i].sight_range as int,
                map_bounds(size),
            ).contains(p);
        assert(now[i] == prior[i]);
    }
    if es[k].player_id == Some(my_id) && visit_range_cells(
        es[k].position,
        es[k].size as int,
        es[k].sight_range as int,
        map_bounds(size),
    ).contains(p) {
        assert(now[k] == es[k]);
    }
}

/// The tiles of the game map as the player sees them, and which of them are locked for a
/// planned construction.
pub struct GameMap {
    size: usize,
    tiles: Vec<Tile>,
    locked: Vec<bool>,
}

impl GameMap {
    pub closed spec fn wf(self) -> bool {
        &&& self.size <= i32::MAX
        &&& self.size * self.size <= usize::MAX
        &&& self.tiles.len() == self.size * self.size
        &&& self.locked.len() == self.size * self.size
    }

    pub closed spec fn spec_size(self) -> int {
        self.size as int
    }

    pub open spec fn spec_contains(self, p: Vec2i) -> bool {
        0 <= p.x < self.spec_size() && 0 <= p.y < self.spec_size()
    }

    /// The tile at a cell of the map.
    pub closed spec fn tile_at(self, p: Vec2i) -> Tile {
        self.tiles@[p.x + p.y * self.size]
    }

    /// Whether a cell of the map is locked.
    pub closed spec fn locked_at(self, p: Vec2i) -> bool {
        self.locked@[p.x + p.y * self.size]
    }

    /// The tile a search sees at `p`: the map's tile inside the map, `Outside` beyond it.
    pub open spec fn view_tile(self, p: Vec2i) -> Tile {
        if self.spec_contains(p) {
            self.tile_at(p)
        } else {
            Tile::Outside
        }
    }

    /// Whether a search sees `p` as locked: never beyond the map.
    pub open spec fn view_locked(self, p: Vec2i) -> bool {
        self.spec_contains(p) && self.locked_at(p)
    }

    /// `r` is the first cell of `cands` on which `f`, given the cell's tile and lock as the map
    /// shows them, answers `true`, or `None` when it answered `false` on all.
    pub open spec fn is_first_tile_match<F: Fn(Vec2i, Tile, bool) -> bool>(
        self,
        cands: Seq<Vec2i>,
        f: F,
        r: Option<Vec2i>,
    ) -> bool {
        match r {
            Some(p) => exists|k: int|
                0 <= k < cands.len() && cands[k] == p && f.ensures(
                    (p, self.view_tile(p), self.view_locked(p)),
                    true,
                ) && forall|j: int|
                    0 <= j < k ==> f.ensures(
                        (#[trigger] cands[j], self.view_tile(cands[j]), self.view_locked(cands[j])),
                        false,
                    ),
            None => forall|j: int|
                0 <= j < cands.len() ==> f.ensures(
                    (#[trigger] cands[j], self.view_tile(cands[j]), self.view_locked(cands[j])),
                    false,
                ),
        }
    }

    /// Like `is_first_tile_match`, where a cell beyond the map counts as `false` without asking
    /// `f`.
    pub open spec fn is_first_inner_match<F: Fn(Vec2i, Tile, bool) -> bool>(
        self,
        cands: Seq<Vec2i>,
        f: F,
        r: Option<Vec2i>,
    ) -> bool {
        match r {
            Some(p) => exists|k: int|
                0 <= k < cands.len() && cands[k] == p && self.spec_contains(p) && f.ensures(
                    (p, self.tile_at(p), self.locked_at(p)),
                    true,
                ) && forall|j: int|
                    0 <= j < k ==> (!self.spec_contains(#[trigger] cands[j]) || f.ensures(
                        (cands[j], self.tile_at(cands[j]), self.locked_at(cands[j])),
                        false,
                    )),
            None => forall|j: int|
                0 <= j < cands.len() ==> (!self.spec_contains(#[trigger] cands[j]) || f.ensures(
                    (cands[j], self.tile_at(cands[j]), self.locked_at(cands[j])),
                    false,
                )),
        }
    }

    proof fn lemma_index_in_range(self, p: Vec2i)
        requires
            self.wf(),
            self.spec_contains(p),
        ensures
            0 <= p.x + p.y * self.size < self.size * self.size,
    {
        lemma_cell_index_in_range(self.size as int, p);
    }

    proof fn lemma_index_injective(self, p: Vec2i, q: Vec2i)
        requires
            self.spec_contains(p),
            self.spec_contains(q),
            p.x + p.y * self.size == q.x + q.y * self.size,
        ensures
            p == q,
    {
        lemma_cell_index_injective(self.size as int, p, q);
    }

    fn index_of(&self, position: Vec2i) -> (r: usize)
        requires
            self.wf(),
            self.spec_contains(position),
        ensures
            r == position.x + position.y * self.size,
            r < self.tiles.len(),
    {
        proof {
            self.lemma_index_in_range(position);
        }
        crate::grid::position_to_index(position, self.size)
    }

    /// Whether the cells `q` with `position <= q < position + (size, size)` include `p`.
    pub open spec fn in_square(position: Vec2i, size: int, p: Vec2i) -> bool {
        position.x <= p.x < position.x + size && position.y <= p.y < position.y + size
    }

    /// The corner where the part of a square that lies on the map starts.
    pub open spec fn clip_low(position: Vec2i) -> Vec2i {
        Vec2i {
            x: if position.x >= 0 { position.x } else { 0 },
            y: if position.y >= 0 { position.y } else { 0 },
        }
    }

    /// The corner where the part of a square that lies on the map ends.
    pub open spec fn clip_high(self, position: Vec2i, size: int) -> Vec2i {
        Vec2i {
            x: if position.x + size <= self.spec_size() { (position.x + size) as i32 } else { self.spec_size() as i32 },
            y: if position.y + size <= self.spec_size() { (position.y + size) as i32 } else { self.spec_size() as i32 },
        }
    }

    pub fn contains(&self, position: Vec2i) -> (r: bool)
        requires
            self.wf(),
        ensures
            r == self.spec_contains(position),
    {
        let size = self.size as i32;
        0 <= position.x && position.x < size && 0 <= position.y && position.y < size
    }

    pub fn get_tile(&self, position: Vec2i) -> (r: Tile)
        requires
            self.wf(),
            self.spec_contains(position),
        ensures
            r == self.tile_at(position),
    {
        self.tiles[self.index_of(position)]
    }

    pub fn is_tile_locked(&self, position: Vec2i) -> (r: bool)
        requires
            self.wf(),
            self.spec_contains(position),
        ensures
            r == self.locked_at(position),
    {
        self.locked[self.index_of(position)]
    }

    fn set_locked(&mut self, position: Vec2i, value: bool)
        requires
            old(self).wf(),
            old(self).spec_contains(position),
        ensures
            final(self).wf(),
            final(self).spec_size() == old(self).spec_size(),
            final(self).tiles == old(self).tiles,
            forall|p: Vec2i|
                final(self).spec_contains(p) ==> final(self).locked_at(p) == if p == position {
                    value
                } else {
                    old(self).locked_at(p)
                },
    {
        let index = self.index_of(position);
        self.locked[index] = value;
        proof {
            assert forall|p: Vec2i| self.spec_contains(p) implies self.locked_at(p) == if p == position {
                value
            } else {
                old(self).locked_at(p)
            } by {
                self.lemma_index_in_range(p);
                if p.x + p.y * self.size == index {
                    self.lemma_index_injective(p, position);
                }
            }
        }
    }

    pub fn lock_tile(&mut self, position: Vec2i)
        requires
            old(self).wf(),
            old(self).spec_contains(position),
        ensures
            final(self).wf(),
            final(self).spec_size() == old(self).spec_size(),
            forall|p: Vec2i| final(self).spec_contains(p) ==> final(self).tile_at(p) == old(self).tile_at(p),
            forall|p: Vec2i|
                final(self).spec_contains(p) ==> final(self).locked_at(p) == (p == position || old(self).locked_at(p)),
    {
        self.set_locked(position, true);
    }

    pub fn unlock_tile(&mut self, position: Vec2i)
        requires
            old(self).wf(),
            old(self).spec_contains(position),
        ensures
            final(self).wf(),
            final(self).spec_size() == old(self).spec_size(),
            forall|p: Vec2i| final(self).spec_contains(p) ==> final(self).tile_at(p) == old(self).tile_at(p),
            forall|p: Vec2i|
                final(self).spec_contains(p) ==> final(self).locked_at(p) == (p != position && old(self).locked_at(p)),
    {
        self.set_locked(position, false);
    }

    fn set_locked_square(&mut self, position: Vec2i, size: i32, value: bool)
        requires
            old(self).wf(),
            in_i32(position.x + size),
            in_i32(position.y + size),
        ensures
            final(self).wf(),
            final(self).spec_size() == old(self).spec_size(),
            final(self).tiles == old(self).tiles,
            forall|p: Vec2i|
                final(self).spec_contains(p) ==> final(self).locked_at(p) == if Self::in_square(position, size as int, p) {
                    value
                } else {
                    old(self).locked_at(p)
                },
    {
        let low = position.highest(Vec2i::zero());
        let high = (position + Vec2i::both(size)).lowest(Vec2i::both(self.size as i32));
        let cells = rect_vec(low, high);
        proof {
            assert forall|p: Vec2i| #[trigger] cells@.contains(p) <==> (self.spec_contains(p)
                && Self::in_square(position, size as int, p)) by {
                lemma_rect_cells_members(low.x as int, high.x as int, low.y as int, high.y as int, p);
            }
        }
        let mut j: usize = 0;
        while j < cells.len()
            invariant
                self.wf(),
                self.size == old(self).size,
                self.tiles == old(self).tiles,
                old(self).wf(),
                forall|p: Vec2i| #[trigger] cells@.contains(p) <==> (self.spec_contains(p) && Self::in_square(position, size as int, p)),
                j <= cells.len(),
                forall|p: Vec2i|
                    self.spec_contains(p) ==> self.locked_at(p) == if cells@.take(j as int).contains(p) {
                        value
                    } else {
                        old(self).locked_at(p)
                    },
            decreases cells.len() - j,
        {
            let c = cells[j];
            assert(cells@.contains(c));
            let ghost prev = *self;
            self.set_locked(c, value);
            proof {
                assert forall|p: Vec2i| self.spec_contains(p) implies self.locked_at(p) == if cells@.take(
                    j + 1,
                ).contains(p) {
                    value
                } else {
                    old(self).locked_at(p)
                } by {
                    lemma_take_push_contains(cells@, j as int, p);
                }
            }
            j = j + 1;
        }
        proof {
            assert(cells@.take(cells.len() as int) =~= cells@);
        }
    }

    /// Locks the cells of the square of side `size` at `position` that lie on the map.
    pub fn lock_square(&mut self, position: Vec2i, size: i32)
        requires
            old(self).wf(),
            in_i32(position.x + size),
            in_i32(position.y + size),
        ensures
            final(self).wf(),
            final(self).spec_size() == old(self).spec_size(),
            forall|p: Vec2i| final(self).spec_contains(p) ==> final(self).tile_at(p) == old(self).tile_at(p),
            forall|p: Vec2i|
                final(self).spec_contains(p) ==> final(self).locked_at(p) == (Self::in_square(position, size as int, p)
                    || old(self).locked_at(p)),
    {
        self.set_locked_square(position, size, true);
    }

    /// Unlocks the cells of the square of side `size` at `position` that lie on the map.
    pub fn unlock_square(&mut self, position: Vec2i, size: i32)
        requires
            old(self).wf(),
            in_i32(position.x + size),
            in_i32(position.y + size),
        ensures
            final(self).wf(),
            final(self).spec_size() == old(self).spec_size(),
            forall|p: Vec2i| final(self).spec_contains(p) ==> final(self).tile_at(p) == old(self).tile_at(p),
            forall|p: Vec2i|
                final(self).spec_contains(p) ==> final(self).locked_at(p) == (!Self::in_square(position, size as int, p)
                    && old(self).locked_at(p)),
    {
        self.set_locked_square(position, size, false);
    }

    /// Asks `f` about each cell of `cands` in turn, with the tile and lock the map shows there
    /// (`Outside` and unlocked beyond the map), and returns the first cell it accepts.
    fn find_in<F: Fn(Vec2i, Tile, bool) -> bool>(&self, cands: &Vec<Vec2i>, f: &F) -> (r: Option<Vec2i>)
        requires
            self.wf(),
            forall|p: Vec2i, t: Tile, l: bool| f.requires((p, t, l)),
        ensures
            self.is_first_tile_match(cands@, *f, r),
    {
        let mut i: usize = 0;
        while i < cands.len()
            invariant
                self.wf(),
                forall|p: Vec2i, t: Tile, l: bool| f.requires((p, t, l)),
                i <= cands.len(),
                forall|j: int|
                    0 <= j < i ==> f.ensures(
                        (#[trigger] cands@[j], self.view_tile(cands@[j]), self.view_locked(cands@[j])),
                        false,
                    ),
            decreases cands.len() - i,
        {
            let p = cands[i];
            let (tile, locked) = if self.contains(p) {
                (self.get_tile(p), self.is_tile_locked(p))
            } else {
                (Tile::Outside, false)
            };
            if f(p, tile, locked) {
                return Some(p);
            }
            i = i + 1;
        }
        None
    }

    /// Asks `f` about the cells of the square of side `size` at `position`, row by row, and
    /// returns the first one it accepts; cells beyond the map are shown as `Outside`.
    pub fn find_inside_square<F: Fn(Vec2i, Tile, bool) -> bool>(&self, position: Vec2i, size: i32, f: F) -> (r: Option<Vec2i>)
        requires
            self.wf(),
            in_i32(position.x + size),
            in_i32(position.y + size),
            forall|p: Vec2i, t: Tile, l: bool| f.requires((p, t, l)),
        ensures
            self.is_first_tile_match(
                rect_between(position, Vec2i { x: (position.x + size) as i32, y: (position.y + size) as i32 }),
                f,
                r,
            ),
    {
        let cands = rect_vec(position, position + Vec2i::both(size));
        self.find_in(&cands, &f)
    }

    /// Asks `f` about the cells of the square of side `size` at `position` that lie on the map,
    /// row by row, and returns the first one it accepts.
    pub fn find_inside_square_within_map<F: Fn(Vec2i, Tile, bool) -> bool>(
        &self,
        position: Vec2i,
        size: i32,
        f: F,
    ) -> (r: Option<Vec2i>)
        requires
            self.wf(),
            in_i32(position.x + size),
            in_i32(position.y + size),
            forall|p: Vec2i, t: Tile, l: bool| f.requires((p, t, l)),
        ensures
            self.is_first_tile_match(
                rect_between(Self::clip_low(position), self.clip_high(position, size as int)),
                f,
                r,
            ),
            forall|p: Vec2i|
                #[trigger] rect_between(Self::clip_low(position), self.clip_high(position, size as int)).contains(p)
                    ==> self.spec_contains(p),
    {
        let low = position.highest(Vec2i::zero());
        let high = (position + Vec2i::both(size)).lowest(Vec2i::both(self.size as i32));
        let cands = rect_vec(low, high);
        proof {
            assert forall|p: Vec2i|
                #[trigger] rect_between(Self::clip_low(position), self.clip_high(position, size as int)).contains(p)
                    implies self.spec_contains(p) by {
                lemma_rect_cells_members(low.x as int, high.x as int, low.y as int, high.y as int, p);
            }
        }
        self.find_in(&cands, &f)
    }

    /// Asks `f` about the cells on the border of the square of side `size` at `position`, in
    /// the order of `rect_border_cells`, and returns the first one it accepts; cells beyond the
    /// map are shown as `Outside`.
    pub fn find_on_square_border<F: Fn(Vec2i, Tile, bool) -> bool>(&self, position: Vec2i, size: i32, f: F) -> (r: Option<Vec2i>)
        requires
            self.wf(),
            in_i32(position.x + size),
            in_i32(position.y + size),
            in_i32(position.x + size - 1),
            in_i32(position.y + size - 1),
            in_i32(position.x + 1),
            in_i32(position.y + 1),
            forall|p: Vec2i, t: Tile, l: bool| f.requires((p, t, l)),
        ensures
            self.is_first_tile_match(
                rect_border_cells(position, Vec2i { x: (position.x + size) as i32, y: (position.y + size) as i32 }),
                f,
                r,
            ),
    {
        let cands = border_vec(position, position + Vec2i::both(size));
        self.find_in(&cands, &f)
    }

    /// Asks `f` about the cells just outside the square of side `size` at `position` that lie
    /// on the map, in the order of `neighbour_cells`, and returns the first one it accepts.
    pub fn find_neighbour<F: Fn(Vec2i, Tile, bool) -> bool>(&self, position: Vec2i, size: i32, f: F) -> (r: Option<Vec2i>)
        requires
            self.wf(),
            in_i32(position.x - 1),
            in_i32(position.y - 1),
            in_i32(position.x + size),
            in_i32(position.y + size),
            forall|p: Vec2i, t: Tile, l: bool| f.requires((p, t, l)),
        ensures
            self.is_first_inner_match(neighbour_cells(position, size as int), f, r),
    {
        let cands = neighbour_vec(position, size);
        let mut i: usize = 0;
        while i < cands.len()
            invariant
                self.wf(),
                forall|p: Vec2i, t: Tile, l: bool| f.requires((p, t, l)),
                cands@ == neighbour_cells(position, size as int),
                i <= cands.len(),
                forall|j: int|
                    0 <= j < i ==> (!self.spec_contains(#[trigger] cands@[j]) || f.ensures(
                        (cands@[j], self.tile_at(cands@[j]), self.locked_at(cands@[j])),
                        false,
                    )),
            decreases cands.len() - i,
        {
            let p = cands[i];
            if self.contains(p) && f(p, self.get_tile(p), self.is_tile_locked(p)) {
                return Some(p);
            }
            i = i + 1;
        }
        None
    }

    /// A `map_size` by `map_size` map updated with the entities the player sees.
    pub fn new(map_size: i32, fog_of_war: bool, my_id: i32, entities: &Vec<MapEntity>) -> (r: Self)
        requires
            0 <= map_size,
            map_size * map_size <= usize::MAX,
            forall|i: int| 0 <= i < entities.len() ==> valid_map_entity(#[trigger] entities@[i], map_size as int),
        ensures
            r.wf(),
            r.spec_size() == map_size,
            forall|p: Vec2i|
                r.spec_contains(p) ==> r.tile_at(p) == expected_tile(fog_of_war, my_id, entities@, map_size as int, p),
            forall|p: Vec2i| r.spec_contains(p) ==> !r.locked_at(p),
    {
        let size = map_size as usize;
        let n = size * size;
        let mut tiles: Vec<Tile> = Vec::new();
        let mut locked: Vec<bool> = Vec::new();
        let mut i: usize = 0;
        while i < n
            invariant
                i <= n,
                tiles.len() == i,
                locked.len() == i,
                forall|j: int| 0 <= j < i ==> !(#[trigger] locked@[j]),
            decreases n - i,
        {
            tiles.push(Tile::Unknown);
            locked.push(false);
            i = i + 1;
        }
        let mut result = Self { size, tiles, locked };
        proof {
            assert forall|p: Vec2i| result.spec_contains(p) implies !result.locked_at(p) by {
                result.lemma_index_in_range(p);
            }
        }
        result.update(fog_of_war, my_id, entities);
        result
    }

    /// Redraws every tile from the entities the player now sees; locks are kept.
    pub fn update(&mut self, fog_of_war: bool, my_id: i32, entities: &Vec<MapEntity>)
        requires
            old(self).wf(),
            forall|i: int|
                0 <= i < entities.len() ==> valid_map_entity(#[trigger] entities@[i], old(self).spec_size()),
        ensures
            final(self).wf(),
            final(self).spec_size() == old(self).spec_size(),
            forall|p: Vec2i|
                final(self).spec_contains(p) ==> final(self).tile_at(p) == expected_tile(
                    fog_of_war,
                    my_id,
                    entities@,
                    old(self).spec_size(),
                    p,
                ),
            forall|p: Vec2i| final(self).spec_contains(p) ==> final(self).locked_at(p) == old(self).locked_at(p),
    {
        let ghost size = self.size as int;
        let ghost es = entities@;
        let n = self.tiles.len();
        let fill = if fog_of_war { Tile::Unknown } else { Tile::Empty };
        let mut i: usize = 0;
        while i < n
            invariant
                n == self.tiles.len(),
                self.size == old(self).size,
                self.locked == old(self).locked,
                self.wf(),
                i <= n,
                forall|j: int| 0 <= j < i ==> #[trigger] self.tiles@[j] == fill,
            decreases n - i,
        {
            self.tiles[i] = fill;
            i = i + 1;
        }
        proof {
            assert forall|p: Vec2i| self.spec_contains(p) implies self.tile_at(p) == expected_tile(
                fog_of_war,
                my_id,
                es.take(0),
                size,
                p,
            ) by {
                self.lemma_index_in_range(p);
                assert(es.take(0) =~= Seq::<MapEntity>::empty());
            }
        }
        let bounds = Rect::new(Vec2i::zero(), Vec2i::both(self.size as i32));
        let mut k: usize = 0;
        while k < entities.len()
            invariant
                self.wf(),
                self.size == old(self).size,
                self.locked == old(self).locked,
                size == self.size,
                es == entities@,
                bounds == map_bounds(size),
                k <= entities.len(),
                forall|i: int| 0 <= i < entities.len() ==> valid_map_entity(#[trigger] entities@[i], size),
                forall|p: Vec2i|
                    self.spec_contains(p) ==> self.tile_at(p) == expected_tile(fog_of_war, my_id, es.take(k as int), size, p),
            decreases entities.len() - k,
        {
            let entity = entities[k];
            assert(valid_map_entity(entity, size));
            let ghost before = *self;
            let cells = visit_square(entity.position, entity.size);
            proof {
                assert forall|p: Vec2i| #[trigger] cells@.contains(p) <==> entity.covers(p) by {
                    lemma_rect_cells_members(
                        entity.position.x as int,
                        entity.position.x + entity.size,
                        entity.position.y as int,
                        entity.position.y + entity.size,
                        p,
                    );
                }
            }
            let mut j: usize = 0;
            while j < cells.len()
                invariant
                    self.wf(),
                    self.size == before.size,
                    self.locked == before.locked,
                    before.wf(),
                    size == self.size,
                    valid_map_entity(entity, size),
                    forall|p: Vec2i| #[trigger] cells@.contains(p) <==> entity.covers(p),
                    j <= cells.len(),
                    forall|p: Vec2i|
                        self.spec_contains(p) ==> self.tile_at(p) == if cells@.take(j as int).contains(p) {
                            Tile::Entity(entity.id)
                        } else {
                            before.tile_at(p)
                        },
                decreases cells.len() - j,
            {
                let c = cells[j];
                assert(cells@.contains(c));
                let index = self.index_of(c);
                let ghost prev = *self;
                self.tiles[index] = Tile::Entity(entity.id);
                proof {
                    assert forall|p: Vec2i| self.spec_contains(p) implies self.tile_at(p) == if cells@.take(
                        j + 1,
                    ).contains(p) {
                        Tile::Entity(entity.id)
                    } else {
                        before.tile_at(p)
                    } by {
                        self.lemma_index_in_range(p);
                        lemma_take_push_contains(cells@, j as int, p);
                        if p.x + p.y * self.size == index {
                            self.lemma_index_injective(p, c);
                        } else {
                            assert(self.tile_at(p) == prev.tile_at(p));
                        }
                    }
                }
                j = j + 1;
            }
            proof {
                assert(cells@.take(cells.len() as int) =~= cells@);
                assert(es.take(k + 1).drop_last() =~= es.take(k as int));
            }
            let own = match entity.player_id {
                Some(id) => id == my_id,
                None => false,
            };
            if fog_of_war && own {
                let ghost middle = *self;
                assert(entity.player_id == Some(my_id));
                let seen = visit_range(entity.position, entity.size, entity.sight_range, &bounds);
                let mut j: usize = 0;
                while j < seen.len()
                    invariant
                        self.wf(),
                        self.size == middle.size,
                        self.locked == middle.locked,
                        middle.wf(),
                        size == self.size,
                        bounds == map_bounds(size),
                        valid_map_entity(entity, size),
                        es == entities@,
                        k < es.len(),
                        es[k as int] == entity,
                        fog_of_war,
                        entity.player_id == Some(my_id),
                        forall|p: Vec2i|
                            middle.spec_contains(p) ==> middle.tile_at(p) == if entity.covers(p) {
                                Tile::Entity(entity.id)
                            } else {
                                expected_tile(fog_of_war, my_id, es.take(k as int), size, p)
                            },
                        seen@ == visit_range_cells(entity.position, entity.size as int, entity.sight_range as int, bounds),
                        j <= seen.len(),
                        forall|p: Vec2i|
                            self.spec_contains(p) ==> self.tile_at(p) == if seen@.take(j as int).contains(p)
                                && middle.tile_at(p) == Tile::Unknown {
                                Tile::Empty
                            } else {
                                middle.tile_at(p)
                            },
                    decreases seen.len() - j,
                {
                    let c = seen[j];
                    proof {
                        crate::grid::lemma_visit_range_members(entity.position, entity.size as int, entity.sight_range as int, bounds, c);
                        assert(seen@.contains(c));
                    }
                    let index = self.index_of(c);
                    let ghost prev = *self;
                    if self.tiles[index] == Tile::Unknown {
                        self.tiles[index] = Tile::Empty;
                    }
                    proof {
                        assert forall|p: Vec2i| self.spec_contains(p) implies self.tile_at(p) == if seen@.take(
                            j + 1,
                        ).contains(p) && middle.tile_at(p) == Tile::Unknown {
                            Tile::Empty
                        } else {
                            middle.tile_at(p)
                        } by {
                            self.lemma_index_in_range(p);
                            lemma_take_push_contains(seen@, j as int, p);
                            if p.x + p.y * self.size == index {
                                self.lemma_index_injective(p, c);
                            } else {
                                assert(self.tile_at(p) == prev.tile_at(p));
                            }
                        }
                    }
                    j = j + 1;
                }
                proof {
                    assert(seen@.take(seen.len() as int) =~= seen@);
                    assert forall|p: Vec2i| self.spec_contains(p) implies self.tile_at(p) == expected_tile(
                        fog_of_war,
                        my_id,
                        es.take(k + 1),
                        size,
                        p,
                    ) by {
                        lemma_covering_step(es, k as int, p);
                        lemma_revealed_step(es, k as int, my_id, size, p);
                        assert(middle.spec_contains(p));
                        assert(seen@ == visit_range_cells(
                            es[k as int].position,
                            es[k as int].size as int,
                            es[k as int].sight_range as int,
                            map_bounds(size),
                        ));
                        if entity.covers(p) {
                            assert(middle.tile_at(p) == Tile::Entity(entity.id));
                        } else {
                            assert(middle.tile_at(p) == expected_tile(fog_of_war, my_id, es.take(k as int), size, p));
                        }
                    }
                }
            } else {
                proof {
                    assert(es[k as int] == entity);
                    assert(!fog_of_war || entity.player_id != Some(my_id));
                    assert forall|p: Vec2i| self.spec_contains(p) implies self.tile_at(p) == expected_tile(
                        fog_of_war,
                        my_id,
                        es.take(k + 1),
                        size,
                        p,
                    ) by {
                        lemma_covering_step(es, k as int, p);
                        lemma_revealed_step(es, k as int, my_id, size, p);
                    }
                }
            }
            k = k + 1;
        }
        proof {
            assert(es.take(entities.len() as int) =~= es);
        }
    }
}


/// Locking a free tile and then unlocking it gives back the locks of every tile as they were,
/// and leaves the tiles alone: `before` is locked at `position` into `locked` (as `lock_tile`
/// ensures), which is unlocked there into `after` (as `unlock_tile` ensures).
pub proof fn lemma_unlock_undoes_lock(before: GameMap, locked: GameMap, after: GameMap, position: Vec2i)
    requires
        before.spec_contains(position),
        !before.locked_at(position),
        locked.spec_size() == before.spec_size(),
        forall|p: Vec2i| locked.spec_contains(p) ==> locked.tile_at(p) == before.tile_at(p),
        forall|p: Vec2i| locked.spec_contains(p) ==> locked.locked_at(p) == (p == position || before.locked_at(p)),
        after.spec_size() == locked.spec_size(),
        forall|p: Vec2i| after.spec_contains(p) ==> after.tile_at(p) == locked.tile_at(p),
        forall|p: Vec2i| after.spec_contains(p) ==> after.locked_at(p) == (p != position && locked.locked_at(p)),
    ensures
        forall|p: Vec2i| after.spec_contains(p) ==> after.locked_at(p) == before.locked_at(p),
        forall|p: Vec2i| after.spec_contains(p) ==> after.tile_at(p) == before.tile_at(p),
{
}

} // verus!
