use vstd::prelude::*;
use crate::entity_type::{spec_type_index, EntityType, ENTITY_TYPES_COUNT};
use crate::vec2::{in_i32, manhattan, trunc_div, Vec2i};
use crate::world::{has_active_base, last_index_of, Entity, World};

verus! {

/// Whether a group is still gathering or ready to go.
#[derive(Debug, Copy, Clone, Eq, PartialEq, Structural, Ord, PartialOrd)]
pub enum GroupState {
    New,
    Ready,
}

/// How many of `units` are of the kind at index `k`.
pub open spec fn count_kind(units: Seq<(i32, EntityType)>, k: int) -> nat
    decreases units.len(),
{
    if units.len() == 0 {
        0
    } else {
        count_kind(units.drop_last(), k) + if spec_type_index(units.last().1) == k {
            1nat
        } else {
            0nat
        }
    }
}

/// `units` without those with id `id`, in their order.
pub open spec fn without_id(units: Seq<(i32, EntityType)>, id: i32) -> Seq<(i32, EntityType)>
    decreases units.len(),
{
    if units.len() == 0 {
        units
    } else {
        let rest = without_id(units.drop_last(), id);
        if units.last().0 == id {
            rest
        } else {
            rest.push(units.last())
        }
    }
}

/// Where the first unit with id `id` stands among `units`, or -1.
pub open spec fn first_with_id(units: Seq<(i32, EntityType)>, id: i32) -> int
    decreases units.len(),
{
    if units.len() == 0 {
        -1
    } else {
        let k = first_with_id(units.drop_last(), id);
        if k >= 0 {
            k
        } else if units.last().0 == id {
            units.len() - 1
        } else {
            -1
        }
    }
}

/// Leaving out the units with one id counts at most as many of each kind, and one less of the
/// kind of a unit that had that id.
proof fn lemma_count_without(units: Seq<(i32, EntityType)>, id: i32, k: int, i: int)
    requires
        0 <= i < units.len() ==> units[i].0 == id && spec_type_index(units[i].1) == k,
    ensures
        count_kind(without_id(units, id), k) <= count_kind(units, k),
        0 <= i < units.len() ==> count_kind(without_id(units, id), k) + 1 <= count_kind(units, k),
    decreases units.len(),
{
    if units.len() > 0 {
        let n = units.len() - 1;
        let front = units.drop_last();
        let rest = without_id(front, id);
        assert(rest.push(units.last()).drop_last() =~= rest);
        assert(units.last() == units[n]);
        if i == n {
            lemma_count_without(units.drop_last(), id, k, -1);
        } else {
            if 0 <= i < n {
                assert(units.drop_last()[i] == units[i]);
            }
            lemma_count_without(units.drop_last(), id, k, i);
        }
    }
}

/// The units of a group with the id of each kept once are all kept with their kinds: each unit
/// left after leaving out an id is one of `units`.
proof fn lemma_without_members(units: Seq<(i32, EntityType)>, id: i32)
    ensures
        forall|u: (i32, EntityType)| without_id(units, id).contains(u) ==> units.contains(u) && u.0 != id,
    decreases units.len(),
{
    if units.len() > 0 {
        let front = units.drop_last();
        lemma_without_members(front, id);
        let rest = without_id(front, id);
        assert forall|u: (i32, EntityType)| without_id(units, id).contains(u) implies units.contains(u) && u.0 != id by {
            if rest.contains(u) {
                assert(front.contains(u));
                let j = choose|j: int| 0 <= j < front.len() && front[j] == u;
                assert(front[j] == units[j]);
            } else {
                assert(units[units.len() - 1] == u);
            }
        }
    }
}

/// The first unit found with an id is one with that id.
proof fn lemma_first_with_id(units: Seq<(i32, EntityType)>, id: i32)
    ensures
        -1 <= first_with_id(units, id) < units.len(),
        first_with_id(units, id) >= 0 ==> units[first_with_id(units, id)].0 == id,
        first_with_id(units, id) == -1 ==> forall|j: int| 0 <= j < units.len() ==> units[j].0 != id,
    decreases units.len(),
{
    if units.len() > 0 {
        lemma_first_with_id(units.drop_last(), id);
        assert forall|j: int| 0 <= j < units.len() - 1 implies units.drop_last()[j] == units[j] by {}
    }
}

/// A group of units gathered toward a target: how many of each kind it needs and has, which
/// units are in it, and where it stands.
#[derive(Debug)]
pub struct Group {
    id: u32,
    state: GroupState,
    target: Option<Vec2i>,
    has: Vec<Option<usize>>,
    need: Vec<Option<usize>>,
    units: Vec<(i32, EntityType)>,
    position: Vec2i,
}

impl Group {
    pub closed spec fn spec_id(self) -> u32 {
        self.id
    }

    pub closed spec fn spec_state(self) -> GroupState {
        self.state
    }

    pub closed spec fn spec_target(self) -> Option<Vec2i> {
        self.target
    }

    pub closed spec fn spec_position(self) -> Vec2i {
        self.position
    }

    /// For each kind, in the order of `EntityType`, how many the group needs, or nothing when
    /// it needs none of that kind.
    pub closed spec fn spec_need(self) -> Seq<Option<usize>> {
        self.need@
    }

    /// For each kind the group needs, how many it has.
    pub closed spec fn spec_has(self) -> Seq<Option<usize>> {
        self.has@
    }

    pub closed spec fn spec_units(self) -> Seq<(i32, EntityType)> {
        self.units@
    }

    /// The group tells, for each kind, how many it needs and has, for the same kinds; every unit
    /// is of a kind it tells; and it has at least as many of each kind as units of that kind.
    pub closed spec fn wf(self) -> bool {
        &&& self.need.len() == ENTITY_TYPES_COUNT
        &&& self.has.len() == ENTITY_TYPES_COUNT
        &&& forall|k: int| 0 <= k < ENTITY_TYPES_COUNT ==> (#[trigger] self.need@[k] is Some <==> self.has@[k] is Some)
        &&& forall|j: int| 0 <= j < self.units.len() ==> self.has@[spec_type_index(#[trigger] self.units@[j].1)] is Some
        &&& forall|k: int|
            0 <= k < ENTITY_TYPES_COUNT && #[trigger] self.has@[k] is Some ==> count_kind(self.units@, k) <= self.has@[k]->0
    }

    /// A new group `id` needing, for each kind in the order of `EntityType`, the number `need`
    /// tells (none for a kind it does not need), and having none yet.
    pub fn new(id: u32, need: Vec<Option<usize>>) -> (r: Self)
        requires
            need.len() == ENTITY_TYPES_COUNT,
        ensures
            r.wf(),
            r.spec_id() == id,
            r.spec_state() == GroupState::New,
            r.spec_target() is None,
            r.spec_need() == need@,
            forall|k: int| 0 <= k < ENTITY_TYPES_COUNT ==> #[trigger] r.spec_has()[k] == if need@[k] is Some { Some(0usize) } else { None },
            r.spec_units() == Seq::<(i32, EntityType)>::empty(),
            r.spec_position() == (Vec2i { x: 0, y: 0 }),
    {
        let mut has: Vec<Option<usize>> = Vec::new();
        let mut k: usize = 0;
        while k < need.len()
            invariant
                k <= need.len(),
                has.len() == k,
                forall|j: int| 0 <= j < k ==> #[trigger] has@[j] == if need@[j] is Some { Some(0usize) } else { None },
            decreases need.len() - k,
        {
            if need[k].is_some() {
                has.push(Some(0));
            } else {
                has.push(None);
            }
            k = k + 1;
        }
        let r = Self { id, state: GroupState::New, target: None, has, need, units: Vec::new(), position: Vec2i::zero() };
        proof {
            assert forall|k: int| 0 <= k < ENTITY_TYPES_COUNT && #[trigger] r.has@[k] is Some implies count_kind(r.units@, k) <= r.has@[k]->0 by {
                assert(count_kind(r.units@, k) == 0);
            }
        }
        r
    }

    pub fn id(&self) -> (r: u32)
        ensures
            r == self.spec_id(),
    {
        self.id
    }

    pub fn has(&self) -> (r: &Vec<Option<usize>>)
        ensures
            r@ == self.spec_has(),
    {
        &self.has
    }

    pub fn position(&self) -> (r: Vec2i)
        ensures
            r == self.spec_position(),
    {
        self.position
    }

    pub fn units(&self) -> (r: &Vec<(i32, EntityType)>)
        ensures
            r@ == self.spec_units(),
    {
        &self.units
    }

    pub fn units_count(&self) -> (r: usize)
        ensures
            r == self.spec_units().len(),
    {
        self.units.len()
    }

    pub fn is_empty(&self) -> (r: bool)
        ensures
            r == (self.spec_units().len() == 0),
    {
        self.units.len() == 0
    }

    pub fn set_target(&mut self, value: Option<Vec2i>)
        ensures
            final(self).spec_target() == value,
            final(self).spec_id() == old(self).spec_id(),
            final(self).spec_state() == old(self).spec_state(),
            final(self).spec_need() == old(self).spec_need(),
            final(self).spec_has() == old(self).spec_has(),
            final(self).spec_units() == old(self).spec_units(),
            final(self).spec_position() == old(self).spec_position(),
            old(self).wf() ==> final(self).wf(),
    {
        self.target = value;
    }

    pub fn target(&self) -> (r: Option<Vec2i>)
        ensures
            r == self.spec_target(),
    {
        self.target
    }

    pub fn set_state(&mut self, value: GroupState)
        ensures
            final(self).spec_state() == value,
            final(self).spec_id() == old(self).spec_id(),
            final(self).spec_target() == old(self).spec_target(),
            final(self).spec_need() == old(self).spec_need(),
            final(self).spec_has() == old(self).spec_has(),
            final(self).spec_units() == old(self).spec_units(),
            final(self).spec_position() == old(self).spec_position(),
            old(self).wf() ==> final(self).wf(),
    {
        self.state = value;
    }

    pub fn state(&self) -> (r: GroupState)
        ensures
            r == self.spec_state(),
    {
        self.state
    }
}

/// How many units `need` asks for in all.
pub open spec fn need_total(need: Seq<Option<usize>>) -> int
    decreases need.len(),
{
    if need.len() == 0 {
        0
    } else {
        need_total(need.drop_last()) + match need.last() {
            Some(v) => v as int,
            None => 0,
        }
    }
}

/// The group has at least as many of every kind it needs as it needs.
pub open spec fn spec_is_full(need: Seq<Option<usize>>, has: Seq<Option<usize>>) -> bool {
    forall|k: int| 0 <= k < need.len() && #[trigger] need[k] is Some ==> need[k]->0 <= has[k]->0
}

impl Group {
    /// A well-formed group tells, for each kind, how many it needs and has for the same kinds.
    pub proof fn lemma_wf_kinds(self)
        requires
            self.wf(),
        ensures
            self.spec_need().len() == ENTITY_TYPES_COUNT,
            self.spec_has().len() == ENTITY_TYPES_COUNT,
            forall|k: int| 0 <= k < ENTITY_TYPES_COUNT ==> (#[trigger] self.spec_need()[k] is Some <==> self.spec_has()[k] is Some),
    {
    }

    /// Adds unit `unit_id` of kind `entity_type`, a kind the group tells, to the group.
    pub fn add_unit(&mut self, unit_id: i32, entity_type: EntityType)
        requires
            old(self).wf(),
            old(self).spec_has()[spec_type_index(entity_type)] is Some,
            old(self).spec_has()[spec_type_index(entity_type)]->0 < usize::MAX,
        ensures
            final(self).wf(),
            final(self).spec_units() == old(self).spec_units().push((unit_id, entity_type)),
            final(self).spec_has() == old(self).spec_has().update(
                spec_type_index(entity_type),
                Some((old(self).spec_has()[spec_type_index(entity_type)]->0 + 1) as usize),
            ),
            final(self).spec_need() == old(self).spec_need(),
            final(self).spec_id() == old(self).spec_id(),
            final(self).spec_state() == old(self).spec_state(),
            final(self).spec_target() == old(self).spec_target(),
            final(self).spec_position() == old(self).spec_position(),
    {
        let ghost units = self.units@;
        let k = entity_type.index();
        let count = match self.has[k] {
            Some(count) => count,
            None => 0,
        };
        self.has.set(k, Some(count + 1));
        self.units.push((unit_id, entity_type));
        proof {
            assert(self.units@.drop_last() =~= units);
            assert forall|j: int| 0 <= j < self.units.len() implies self.has@[spec_type_index(#[trigger] self.units@[j].1)] is Some by {
                if j < units.len() {
                    assert(self.units@[j] == units[j]);
                }
            }
        }
    }

    /// Takes the units with id `unit_id` out of the group, and one off the count of the kind of
    /// the first of them; nothing happens when the group has no such unit.
    pub fn remove_unit(&mut self, unit_id: i32)
        requires
            old(self).wf(),
        ensures
            final(self).wf(),
            ({
                let i = first_with_id(old(self).spec_units(), unit_id);
                let k = spec_type_index(old(self).spec_units()[i].1);
                if i < 0 {
                    final(self).spec_units() == old(self).spec_units() && final(self).spec_has() == old(self).spec_has()
                } else {
                    &&& final(self).spec_units() == without_id(old(self).spec_units(), unit_id)
                    &&& final(self).spec_has() == old(self).spec_has().update(k, Some((old(self).spec_has()[k]->0 - 1) as usize))
                }
            }),
            final(self).spec_need() == old(self).spec_need(),
            final(self).spec_id() == old(self).spec_id(),
            final(self).spec_state() == old(self).spec_state(),
            final(self).spec_target() == old(self).spec_target(),
            final(self).spec_position() == old(self).spec_position(),
    {
        let ghost units = self.units@;
        proof {
            lemma_first_with_id(units, unit_id);
        }
        let mut found: Option<usize> = None;
        let mut i: usize = 0;
        while found.is_none() && i < self.units.len()
            invariant
                i <= self.units.len(),
                self.units@ == units,
                found is None ==> first_with_id(units.take(i as int), unit_id) == -1,
                found matches Some(f) ==> f < units.len() && units[f as int].0 == unit_id && first_with_id(units, unit_id) == f,
            decreases self.units.len() - i,
        {
            proof {
                assert(units.take(i + 1).drop_last() =~= units.take(i as int));
                assert(units.take(i + 1).last() == units[i as int]);
            }
            if self.units[i].0 == unit_id {
                found = Some(i);
                proof {
                    lemma_first_prefix(units, i + 1, unit_id);
                }
            }
            i = i + 1;
        }
        proof {
            if found is None {
                assert(units.take(units.len() as int) =~= units);
            }
        }
        match found {
            None => {},
            Some(f) => {
                let kind = self.units[f].1;
                let k = kind.index();
                proof {
                    lemma_count_without(units, unit_id, k as int, f as int);
                    assert(count_kind(units, k as int) >= 1);
                }
                let count = match self.has[k] {
                    Some(count) => count,
                    None => 0,
                };
                self.has.set(k, Some(count - 1));
                let mut kept: Vec<(i32, EntityType)> = Vec::new();
                let mut j: usize = 0;
                while j < self.units.len()
                    invariant
                        j <= self.units.len(),
                        self.units@ == units,
                        kept@ == without_id(units.take(j as int), unit_id),
                    decreases self.units.len() - j,
                {
                    let u = self.units[j];
                    proof {
                        assert(units.take(j + 1).drop_last() =~= units.take(j as int));
                        assert(units.take(j + 1).last() == u);
                    }
                    if u.0 != unit_id {
                        kept.push(u);
                    }
                    j = j + 1;
                }
                proof {
                    assert(units.take(units.len() as int) =~= units);
                }
                self.units = kept;
                proof {
                    lemma_without_members(units, unit_id);
                    assert forall|j: int| 0 <= j < self.units.len() implies self.has@[spec_type_index(#[trigger] self.units@[j].1)] is Some by {
                        assert(without_id(units, unit_id).contains(self.units@[j]));
                        assert(units.contains(self.units@[j]));
                        let x = choose|x: int| 0 <= x < units.len() && units[x] == self.units@[j];
                    }
                    assert forall|m: int| 0 <= m < ENTITY_TYPES_COUNT && #[trigger] self.has@[m] is Some implies count_kind(self.units@, m) <= self.has@[m]->0 by {
                        lemma_count_without(units, unit_id, m, if m == k { f as int } else { -1 });
                    }
                }
            },
        }
    }

    /// Takes every unit out of the group; it then has none of any kind.
    pub fn clear(&mut self)
        requires
            old(self).wf(),
        ensures
            final(self).wf(),
            final(self).spec_units() == Seq::<(i32, EntityType)>::empty(),
            forall|k: int| 0 <= k < ENTITY_TYPES_COUNT ==> #[trigger] final(self).spec_has()[k] == if old(self).spec_has()[k] is Some { Some(0usize) } else { None },
            final(self).spec_need() == old(self).spec_need(),
            final(self).spec_id() == old(self).spec_id(),
            final(self).spec_state() == old(self).spec_state(),
            final(self).spec_target() == old(self).spec_target(),
            final(self).spec_position() == old(self).spec_position(),
    {
        let ghost has = self.has@;
        self.units = Vec::new();
        let mut k: usize = 0;
        while k < self.has.len()
            invariant
                k <= self.has.len(),
                self.has.len() == has.len(),
                has == old(self).has@,
                self.units@ == Seq::<(i32, EntityType)>::empty(),
                self.need == old(self).need,
                self.id == old(self).id,
                self.state == old(self).state,
                self.target == old(self).target,
                self.position == old(self).position,
                forall|j: int| 0 <= j < k ==> #[trigger] self.has@[j] == if has[j] is Some { Some(0usize) } else { None },
                forall|j: int| k <= j < has.len() ==> #[trigger] self.has@[j] == has[j],
            decreases self.has.len() - k,
        {
            if self.has[k].is_some() {
                self.has.set(k, Some(0));
            }
            k = k + 1;
        }
        proof {
            assert forall|m: int| 0 <= m < ENTITY_TYPES_COUNT && #[trigger] self.has@[m] is Some implies count_kind(self.units@, m) <= self.has@[m]->0 by {
                assert(count_kind(self.units@, m) == 0);
            }
        }
    }

    /// Whether the group has as many of every kind it needs as it needs.
    pub fn is_full(&self) -> (r: bool)
        requires
            self.wf(),
        ensures
            r == spec_is_full(self.spec_need(), self.spec_has()),
    {
        let mut k: usize = 0;
        while k < self.need.len()
            invariant
                self.wf(),
                k <= self.need.len(),
                forall|j: int| 0 <= j < k && #[trigger] self.need@[j] is Some ==> self.need@[j]->0 <= self.has@[j]->0,
            decreases self.need.len() - k,
        {
            match (self.need[k], self.has[k]) {
                (Some(need), Some(has)) => {
                    if need > has {
                        return false;
                    }
                },
                _ => {},
            }
            k = k + 1;
        }
        true
    }

    /// Whether the group needs more units of kind `entity_type` than it has.
    pub fn need_more_of(&self, entity_type: &EntityType) -> (r: bool)
        requires
            self.wf(),
        ensures
            r == (self.spec_need()[spec_type_index(*entity_type)] matches Some(v) && v > self.spec_has()[spec_type_index(*entity_type)]->0),
    {
        let k = entity_type.index();
        match (self.need[k], self.has[k]) {
            (Some(need), Some(has)) => need > has,
            _ => false,
        }
    }

    /// How many units the group needs in all.
    pub fn need_count(&self) -> (r: usize)
        requires
            need_total(self.spec_need()) <= usize::MAX,
        ensures
            r == need_total(self.spec_need()),
    {
        let mut total: usize = 0;
        let mut k: usize = 0;
        while k < self.need.len()
            invariant
                k <= self.need.len(),
                need_total(self.need@) <= usize::MAX,
                total == need_total(self.need@.take(k as int)),
            decreases self.need.len() - k,
        {
            proof {
                assert(self.need@.take(k + 1).drop_last() =~= self.need@.take(k as int));
                assert(self.need@.take(k + 1).last() == self.need@[k as int]);
                lemma_need_total_prefix(self.need@, k + 1);
            }
            match self.need[k] {
                Some(v) => {
                    total = total + v;
                },
                None => {},
            }
            k = k + 1;
        }
        proof {
            assert(self.need@.take(self.need.len() as int) =~= self.need@);
        }
        total
    }
}

/// The first unit with an id among the first `n` units is the first of all of them.
proof fn lemma_first_prefix(units: Seq<(i32, EntityType)>, n: int, id: i32)
    requires
        0 <= n <= units.len(),
        first_with_id(units.take(n), id) >= 0,
    ensures
        first_with_id(units, id) == first_with_id(units.take(n), id),
    decreases units.len() - n,
{
    if n < units.len() {
        assert(units.take(n + 1).drop_last() =~= units.take(n));
        lemma_first_prefix(units, n + 1, id);
    } else {
        assert(units.take(n) =~= units);
    }
}

/// What a prefix of `need` asks for is at most what all of it asks for.
proof fn lemma_need_total_prefix(need: Seq<Option<usize>>, n: int)
    requires
        0 <= n <= need.len(),
    ensures
        need_total(need.take(n)) <= need_total(need),
    decreases need.len() - n,
{
    if n < need.len() {
        assert(need.take(n + 1).drop_last() =~= need.take(n));
        lemma_need_total_prefix(need, n + 1);
    } else {
        assert(need.take(n) =~= need);
    }
}

/// Leaving out an id no unit has keeps every unit.
proof fn lemma_without_absent(units: Seq<(i32, EntityType)>, id: i32)
    requires
        forall|j: int| 0 <= j < units.len() ==> #[trigger] units[j].0 != id,
    ensures
        without_id(units, id) == units,
        first_with_id(units, id) == -1,
    decreases units.len(),
{
    if units.len() > 0 {
        let front = units.drop_last();
        assert forall|j: int| 0 <= j < front.len() implies #[trigger] front[j].0 != id by {
            assert(front[j] == units[j]);
        }
        lemma_without_absent(front, id);
        assert(units[units.len() - 1].0 != id);
        assert(front.push(units.last()) =~= units);
    } else {
        assert(units =~= Seq::<(i32, EntityType)>::empty());
    }
}

/// Adding a unit whose id the group does not have yet and then removing that id gives back the
/// same units and counts: `before` becomes `added` by `add_unit(unit_id, entity_type)` and
/// `added` becomes `after` by `remove_unit(unit_id)`, as their `ensures` tell.
pub proof fn lemma_remove_undoes_add(before: Group, added: Group, after: Group, unit_id: i32, entity_type: EntityType)
    requires
        before.wf(),
        forall|j: int| 0 <= j < before.spec_units().len() ==> #[trigger] before.spec_units()[j].0 != unit_id,
        before.spec_has()[spec_type_index(entity_type)] is Some,
        added.spec_units() == before.spec_units().push((unit_id, entity_type)),
        added.spec_has() == before.spec_has().update(
            spec_type_index(entity_type),
            Some((before.spec_has()[spec_type_index(entity_type)]->0 + 1) as usize),
        ),
        ({
            let i = first_with_id(added.spec_units(), unit_id);
            let k = spec_type_index(added.spec_units()[i].1);
            if i < 0 {
                after.spec_units() == added.spec_units() && after.spec_has() == added.spec_has()
            } else {
                &&& after.spec_units() == without_id(added.spec_units(), unit_id)
                &&& after.spec_has() == added.spec_has().update(k, Some((added.spec_has()[k]->0 - 1) as usize))
            }
        }),
        before.spec_has()[spec_type_index(entity_type)]->0 < usize::MAX,
    ensures
        after.spec_units() == before.spec_units(),
        after.spec_has() == before.spec_has(),
{
    let units = before.spec_units();
    let pushed = units.push((unit_id, entity_type));
    lemma_without_absent(units, unit_id);
    assert(pushed.drop_last() =~= units);
    assert(pushed.last() == (unit_id, entity_type));
    assert(first_with_id(pushed, unit_id) == units.len());
    assert(without_id(pushed, unit_id) == units);
    let k = spec_type_index(entity_type);
    assert(before.spec_has().len() == ENTITY_TYPES_COUNT);
    assert(added.spec_has()[k]->0 - 1 == before.spec_has()[k]->0);
    assert(added.spec_has().update(k, Some((added.spec_has()[k]->0 - 1) as usize)) =~= before.spec_has());
}


/// The ids of the units that the entities `es` no longer hold, in the units' order.
pub open spec fn absent_ids(units: Seq<(i32, EntityType)>, es: Seq<Entity>) -> Seq<i32>
    decreases units.len(),
{
    if units.len() == 0 {
        Seq::empty()
    } else {
        let rest = absent_ids(units.drop_last(), es);
        if last_index_of(es, units.last().0) < 0 {
            rest.push(units.last().0)
        } else {
            rest
        }
    }
}

/// The units and counts once the units with id `id` leave, as `remove_unit` takes them out.
pub open spec fn removed(units: Seq<(i32, EntityType)>, has: Seq<Option<usize>>, id: i32) -> (Seq<(i32, EntityType)>, Seq<Option<usize>>) {
    let i = first_with_id(units, id);
    if i < 0 {
        (units, has)
    } else {
        let k = spec_type_index(units[i].1);
        (without_id(units, id), has.update(k, Some((has[k]->0 - 1) as usize)))
    }
}

/// The units and counts once the units with each id of `ids` in turn leave.
pub open spec fn removed_all(units: Seq<(i32, EntityType)>, has: Seq<Option<usize>>, ids: Seq<i32>) -> (
    Seq<(i32, EntityType)>,
    Seq<Option<usize>>,
)
    decreases ids.len(),
{
    if ids.len() == 0 {
        (units, has)
    } else {
        let p = removed_all(units, has, ids.drop_last());
        removed(p.0, p.1, ids.last())
    }
}

/// The kind at index `k` in the order of `EntityType`.
pub open spec fn kind_at(k: int) -> EntityType {
    if k == 0 {
        EntityType::Wall
    } else if k == 1 {
        EntityType::House
    } else if k == 2 {
        EntityType::BuilderBase
    } else if k == 3 {
        EntityType::BuilderUnit
    } else if k == 4 {
        EntityType::MeleeBase
    } else if k == 5 {
        EntityType::MeleeUnit
    } else if k == 6 {
        EntityType::RangedBase
    } else if k == 7 {
        EntityType::RangedUnit
    } else if k == 8 {
        EntityType::Resource
    } else {
        EntityType::Turret
    }
}

fn entity_type_at(k: usize) -> (r: EntityType)
    requires
        k < ENTITY_TYPES_COUNT,
    ensures
        r == kind_at(k as int),
        spec_type_index(r) == k,
{
    if k == 0 {
        EntityType::Wall
    } else if k == 1 {
        EntityType::House
    } else if k == 2 {
        EntityType::BuilderBase
    } else if k == 3 {
        EntityType::BuilderUnit
    } else if k == 4 {
        EntityType::MeleeBase
    } else if k == 5 {
        EntityType::MeleeUnit
    } else if k == 6 {
        EntityType::RangedBase
    } else if k == 7 {
        EntityType::RangedUnit
    } else if k == 8 {
        EntityType::Resource
    } else {
        EntityType::Turret
    }
}

/// The need once kinds that no active base of the player builds are settled at what the group
/// has.
pub open spec fn settled_need(need: Seq<Option<usize>>, has: Seq<Option<usize>>, w: World) -> Seq<Option<usize>> {
    Seq::new(
        need.len(),
        |k: int|
            if need[k] is Some && !has_active_base(w.spec_entities(), w.spec_my_id(), w.spec_properties(), kind_at(k)) {
                has[k]
            } else {
                need[k]
            },
    )
}

/// Where the world has the units.
pub open spec fn unit_positions(units: Seq<(i32, EntityType)>, es: Seq<Entity>) -> Seq<Vec2i> {
    Seq::new(units.len(), |j: int| es[last_index_of(es, units[j].0)].position)
}

/// The sums of the coordinates of `ps`.
pub open spec fn position_sum(ps: Seq<Vec2i>) -> (int, int)
    decreases ps.len(),
{
    if ps.len() == 0 {
        (0, 0)
    } else {
        let r = position_sum(ps.drop_last());
        (r.0 + ps.last().x, r.1 + ps.last().y)
    }
}

/// Whether the coordinates of `ps` can be summed in order without overflow.
pub open spec fn position_sums_fit(ps: Seq<Vec2i>) -> bool {
    forall|i: int|
        0 <= i <= ps.len() ==> in_i32(#[trigger] position_sum(ps.take(i)).0) && in_i32(position_sum(ps.take(i)).1)
}

/// The mean of `ps`, rounded toward zero.
pub open spec fn mean_position(ps: Seq<Vec2i>) -> Vec2i {
    Vec2i {
        x: trunc_div(position_sum(ps).0, ps.len() as int) as i32,
        y: trunc_div(position_sum(ps).1, ps.len() as int) as i32,
    }
}

/// The point chosen among `ps` is one of them, and none of them is strictly nearer to `target`.
pub proof fn lemma_closest_is_nearest(ps: Seq<Vec2i>, target: Vec2i)
    requires
        ps.len() > 0,
    ensures
        ps.contains(closest_to(ps, target)),
        forall|k: int| 0 <= k < ps.len() ==> manhattan(closest_to(ps, target), target) <= manhattan(#[trigger] ps[k], target),
    decreases ps.len(),
{
    if ps.len() == 1 {
        assert(ps[0] == closest_to(ps, target));
    } else {
        let front = ps.drop_last();
        lemma_closest_is_nearest(front, target);
        let r = closest_to(front, target);
        let j = choose|j: int| 0 <= j < front.len() && front[j] == r;
        assert(ps[j] == r);
        assert(ps[ps.len() - 1] == ps.last());
        assert forall|k: int| 0 <= k < ps.len() implies manhattan(closest_to(ps, target), target) <= manhattan(#[trigger] ps[k], target) by {
            if k < front.len() {
                assert(front[k] == ps[k]);
            }
        }
    }
}

/// After an update, a group with units stands at the position of one of them, and none of them
/// is strictly nearer to the mean of their positions.
pub proof fn lemma_group_stands_at_nearest_unit(ps: Seq<Vec2i>)
    requires
        ps.len() > 0,
    ensures
        ps.contains(closest_to(ps, mean_position(ps))),
        forall|k: int|
            0 <= k < ps.len() ==> manhattan(closest_to(ps, mean_position(ps)), mean_position(ps)) <= manhattan(
                #[trigger] ps[k],
                mean_position(ps),
            ),
{
    lemma_closest_is_nearest(ps, mean_position(ps));
}

/// The first of `ps` nearest to `target`; the origin when there is none.
pub open spec fn closest_to(ps: Seq<Vec2i>, target: Vec2i) -> Vec2i
    decreases ps.len(),
{
    if ps.len() == 0 {
        Vec2i { x: 0, y: 0 }
    } else if ps.len() == 1 {
        ps[0]
    } else {
        let r = closest_to(ps.drop_last(), target);
        if manhattan(ps.last(), target) < manhattan(r, target) {
            ps.last()
        } else {
            r
        }
    }
}

proof fn lemma_removed_all_members(units: Seq<(i32, EntityType)>, has: Seq<Option<usize>>, ids: Seq<i32>)
    ensures
        forall|u: (i32, EntityType)| #[trigger] removed_all(units, has, ids).0.contains(u) ==> units.contains(u) && !ids.contains(u.0),
    decreases ids.len(),
{
    if ids.len() > 0 {
        let front = ids.drop_last();
        lemma_removed_all_members(units, has, front);
        let p = removed_all(units, has, front);
        lemma_without_members(p.0, ids.last());
        lemma_first_with_id(p.0, ids.last());
        assert forall|u: (i32, EntityType)| #[trigger] removed_all(units, has, ids).0.contains(u) implies units.contains(u)
            && !ids.contains(u.0) by {
            assert(p.0.contains(u));
            assert(u.0 != ids.last()) by {
                if first_with_id(p.0, ids.last()) < 0 {
                    let j = choose|j: int| 0 <= j < p.0.len() && p.0[j] == u;
                    assert(p.0[j].0 != ids.last());
                }
            }
            if ids.contains(u.0) {
                let j = choose|j: int| 0 <= j < ids.len() && ids[j] == u.0;
                if j < ids.len() - 1 {
                    assert(front[j] == u.0);
                }
            }
        }
    }
}

proof fn lemma_absent_ids_cover(units: Seq<(i32, EntityType)>, es: Seq<Entity>)
    ensures
        forall|j: int| 0 <= j < units.len() && last_index_of(es, #[trigger] units[j].0) < 0 ==> absent_ids(units, es).contains(units[j].0),
    decreases units.len(),
{
    if units.len() > 0 {
        let front = units.drop_last();
        lemma_absent_ids_cover(front, es);
        let rest = absent_ids(front, es);
        assert forall|j: int| 0 <= j < units.len() && last_index_of(es, #[trigger] units[j].0) < 0 implies absent_ids(units, es).contains(units[j].0) by {
            if j < units.len() - 1 {
                assert(front[j] == units[j]);
                let w = choose|w: int| 0 <= w < rest.len() && rest[w] == units[j].0;
                if last_index_of(es, units.last().0) < 0 {
                    assert(rest.push(units.last().0)[w] == units[j].0);
                }
            } else {
                assert(units.last() == units[j]);
                let r2 = rest.push(units.last().0);
                assert(r2[rest.len() as int] == units[j].0);
            }
        }
    }
}

impl Group {
    /// The units that stay once the units the world no longer knows leave.
    pub open spec fn staying(self, w: World) -> Seq<(i32, EntityType)> {
        removed_all(self.spec_units(), self.spec_has(), absent_ids(self.spec_units(), w.spec_entities())).0
    }

    /// Whether the group's position can be worked out after an update with `w`.
    pub open spec fn position_fits(self, w: World) -> bool {
        let ps = unit_positions(self.staying(w), w.spec_entities());
        &&& ps.len() <= i32::MAX
        &&& position_sums_fit(ps)
        &&& forall|j: int| 0 <= j < ps.len() ==> manhattan(#[trigger] ps[j], mean_position(ps)) <= i32::MAX
    }

    /// Brings the group up to date with the world: units the world no longer knows leave; a kind
    /// no active base of the player builds is needed only as much as the group has; and the
    /// group stands at the unit nearest to the mean position of its units (the origin when it
    /// has none).
    pub fn update(&mut self, world: &World)
        requires
            old(self).wf(),
            world.wf(),
            old(self).position_fits(*world),
        ensures
            final(self).wf(),
            ({
                let after = removed_all(
                    old(self).spec_units(),
                    old(self).spec_has(),
                    absent_ids(old(self).spec_units(), world.spec_entities()),
                );
                let ps = unit_positions(after.0, world.spec_entities());
                &&& final(self).spec_units() == after.0
                &&& final(self).spec_has() == after.1
                &&& final(self).spec_need() == settled_need(old(self).spec_need(), after.1, *world)
                &&& final(self).spec_position() == if ps.len() == 0 {
                    Vec2i { x: 0, y: 0 }
                } else {
                    closest_to(ps, mean_position(ps))
                }
            }),
            final(self).spec_id() == old(self).spec_id(),
            final(self).spec_state() == old(self).spec_state(),
            final(self).spec_target() == old(self).spec_target(),
    {
        let ghost units0 = self.units@;
        let ghost has0 = self.has@;
        let ghost es = world.spec_entities();
        let mut absent: Vec<i32> = Vec::new();
        let mut j: usize = 0;
        while j < self.units.len()
            invariant
                world.wf(),
                self.units@ == units0,
                es == world.spec_entities(),
                j <= self.units.len(),
                absent@ == absent_ids(units0.take(j as int), es),
            decreases self.units.len() - j,
        {
            proof {
                assert(units0.take(j + 1).drop_last() =~= units0.take(j as int));
            }
            let id = self.units[j].0;
            if !world.contains_entity(id) {
                absent.push(id);
            }
            j = j + 1;
        }
        proof {
            assert(units0.take(units0.len() as int) =~= units0);
        }
        let mut a: usize = 0;
        while a < absent.len()
            invariant
                self.wf(),
                a <= absent.len(),
                self.id == old(self).id,
                self.state == old(self).state,
                self.target == old(self).target,
                self.need@ == old(self).need@,
                (self.units@, self.has@) == removed_all(units0, has0, absent@.take(a as int)),
            decreases absent.len() - a,
        {
            proof {
                assert(absent@.take(a + 1).drop_last() =~= absent@.take(a as int));
            }
            self.remove_unit(absent[a]);
            a = a + 1;
        }
        proof {
            assert(absent@.take(absent.len() as int) =~= absent@);
        }
        let ghost has1 = self.has@;
        let mut k: usize = 0;
        while k < ENTITY_TYPES_COUNT
            invariant
                self.wf(),
                world.wf(),
                k <= ENTITY_TYPES_COUNT,
                old(self).need@.len() == ENTITY_TYPES_COUNT,
                self.has@ == has1,
                self.id == old(self).id,
                self.state == old(self).state,
                self.target == old(self).target,
                self.units@ == removed_all(units0, has0, absent@).0,
                has1 == removed_all(units0, has0, absent@).1,
                forall|m: int| 0 <= m < k ==> #[trigger] self.need@[m] == settled_need(old(self).need@, has1, *world)[m],
                forall|m: int| k <= m < ENTITY_TYPES_COUNT ==> #[trigger] self.need@[m] == old(self).need@[m],
            decreases ENTITY_TYPES_COUNT - k,
        {
            let t = entity_type_at(k);
            if self.need[k].is_some() && !world.has_active_base_for(&t) {
                let h = self.has[k];
                self.need.set(k, h);
            }
            k = k + 1;
        }
        proof {
            assert(self.need@ =~= settled_need(old(self).need@, has1, *world));
        }
        let ghost ps = unit_positions(self.units@, es);
        if self.units.len() == 0 {
            self.position = Vec2i::zero();
        } else {
            proof {
                lemma_removed_all_members(units0, has0, absent@);
                lemma_absent_ids_cover(units0, es);
                assert forall|j: int| 0 <= j < self.units@.len() implies last_index_of(es, #[trigger] self.units@[j].0) >= 0 by {
                    assert(removed_all(units0, has0, absent@).0.contains(self.units@[j]));
                    let w = choose|w: int| 0 <= w < units0.len() && units0[w] == self.units@[j];
                    if last_index_of(es, units0[w].0) < 0 {
                        assert(absent@.contains(units0[w].0));
                    }
                }
            }
            let n = self.units.len();
            let mut sum = Vec2i::zero();
            let mut i: usize = 0;
            while i < n
                invariant
                    world.wf(),
                    es == world.spec_entities(),
                    n == self.units.len(),
                    ps == unit_positions(self.units@, es),
                    position_sums_fit(ps),
                    forall|j: int| 0 <= j < self.units@.len() ==> last_index_of(es, #[trigger] self.units@[j].0) >= 0,
                    i <= n,
                    sum.x == position_sum(ps.take(i as int)).0,
                    sum.y == position_sum(ps.take(i as int)).1,
                decreases n - i,
            {
                let p = world.get_entity(self.units[i].0).position;
                proof {
                    assert(ps.take(i + 1).drop_last() =~= ps.take(i as int));
                    assert(ps.take(i + 1).last() == p);
                    assert(in_i32(position_sum(ps.take(i + 1)).0));
                    assert(in_i32(position_sum(ps.take(i + 1)).1));
                }
                sum = sum + p;
                i = i + 1;
            }
            proof {
                assert(ps.take(n as int) =~= ps);
            }
            let mean = sum / (n as i32);
            assert(mean == mean_position(ps));
            let mut best = world.get_entity(self.units[0].0).position;
            proof {
                assert(manhattan(ps[0], mean_position(ps)) <= i32::MAX);
                assert(ps.take(1).drop_last() =~= Seq::<Vec2i>::empty());
            }
            let mut i: usize = 1;
            while i < n
                invariant
                    world.wf(),
                    es == world.spec_entities(),
                    n == self.units.len(),
                    n >= 1,
                    ps == unit_positions(self.units@, es),
                    mean == mean_position(ps),
                    forall|j: int| 0 <= j < ps.len() ==> manhattan(#[trigger] ps[j], mean_position(ps)) <= i32::MAX,
                    forall|j: int| 0 <= j < self.units@.len() ==> last_index_of(es, #[trigger] self.units@[j].0) >= 0,
                    1 <= i <= n,
                    best == closest_to(ps.take(i as int), mean),
                    manhattan(best, mean) <= i32::MAX,
                decreases n - i,
            {
                let p = world.get_entity(self.units[i].0).position;
                proof {
                    assert(ps.take(i + 1).drop_last() =~= ps.take(i as int));
                    assert(ps.take(i + 1).last() == p);
                    assert(manhattan(ps[i as int], mean_position(ps)) <= i32::MAX);
                }
                if p.distance(mean) < best.distance(mean) {
                    best = p;
                }
                i = i + 1;
            }
            proof {
                assert(ps.take(n as int) =~= ps);
            }
            self.position = best;
        }
    }
}

} // verus!
