use vstd::prelude::*;
use crate::entity_type::{EntityProperties, EntityType, ENTITY_TYPES_COUNT};
use crate::vec2::in_i32;

verus! {

/// Rates and costs of the economy that the build simulator plays out.
pub struct BuildProperties {
    pub harvest_rate: i32,
    pub construct_rate: i32,
    pub transfer_ticks: i32,
    pub builder_cost: i32,
    pub start_costs: Vec<i32>,
    pub construction_costs: Vec<i32>,
    pub population_provide: Vec<i32>,
}

impl BuildProperties {
    /// One start cost, construction cost and population per kind of building.
    pub open spec fn wf(self) -> bool {
        &&& self.start_costs.len() == 2
        &&& self.construction_costs.len() == 2
        &&& self.population_provide.len() == 2
    }

    /// The economy of the game whose entity properties are given, with `transfer_ticks` for a
    /// builder to change task.
    pub fn new(transfer_ticks: i32, entity_properties: &Vec<EntityProperties>) -> (r: Self)
        requires
            entity_properties.len() == ENTITY_TYPES_COUNT,
            entity_properties@[3].attack.is_some(),
            entity_properties@[3].repair.is_some(),
            in_i32(entity_properties@[8].resource_per_health * entity_properties@[3].attack.unwrap().damage),
        ensures
            r.wf(),
            r.harvest_rate == entity_properties@[8].resource_per_health * entity_properties@[3].attack.unwrap().damage,
            r.construct_rate == entity_properties@[3].repair.unwrap().power,
            r.transfer_ticks == transfer_ticks,
            r.builder_cost == entity_properties@[3].initial_cost,
            r.start_costs@ == seq![entity_properties@[1].initial_cost, entity_properties@[6].initial_cost],
            r.construction_costs@ == seq![entity_properties@[1].max_health, entity_properties@[6].max_health],
            r.population_provide@ == seq![
                entity_properties@[1].population_provide,
                entity_properties@[6].population_provide,
            ],
    {
        let builder_properties = &entity_properties[EntityType::BuilderUnit.index()];
        let house = &entity_properties[EntityType::House.index()];
        let ranged_base = &entity_properties[EntityType::RangedBase.index()];
        let damage = match &builder_properties.attack {
            Some(attack) => attack.damage,
            None => 0,
        };
        let power = match &builder_properties.repair {
            Some(repair) => repair.power,
            None => 0,
        };
        let mut start_costs = Vec::new();
        start_costs.push(house.initial_cost);
        start_costs.push(ranged_base.initial_cost);
        let mut construction_costs = Vec::new();
        construction_costs.push(house.max_health);
        construction_costs.push(ranged_base.max_health);
        let mut population_provide = Vec::new();
        population_provide.push(house.population_provide);
        population_provide.push(ranged_base.population_provide);
        let r = Self {
            harvest_rate: entity_properties[EntityType::Resource.index()].resource_per_health * damage,
            construct_rate: power,
            transfer_ticks,
            builder_cost: builder_properties.initial_cost,
            start_costs,
            construction_costs,
            population_provide,
        };
        assert(r.start_costs@ =~= seq![entity_properties@[1].initial_cost, entity_properties@[6].initial_cost]);
        assert(r.construction_costs@ =~= seq![entity_properties@[1].max_health, entity_properties@[6].max_health]);
        assert(r.population_provide@ =~= seq![
            entity_properties@[1].population_provide,
            entity_properties@[6].population_provide,
        ]);
        r
    }
}


/// What a builder is busy with.
#[derive(Clone, Copy, Debug, Eq, PartialEq, Structural)]
pub enum BuildTask {
    Idle,
    Harvest,
    Build(u32),
}

/// A builder and the ticks it still needs to walk to its task.
#[derive(Clone, Copy, Debug, Eq, PartialEq, Structural)]
pub struct Builder {
    pub task: BuildTask,
    pub ticks_to_start: i32,
}

/// The kinds of buildings the build simulator knows.
#[derive(Copy, Clone, Debug, Eq, PartialEq, Structural)]
pub enum Building {
    House,
    RangedBase,
}

pub open spec fn spec_building_index(b: Building) -> int {
    match b {
        Building::House => 0,
        Building::RangedBase => 1,
    }
}

impl Building {
    pub fn index(&self) -> (r: usize)
        ensures
            r == spec_building_index(*self),
    {
        match self {
            Building::House => 0,
            Building::RangedBase => 1,
        }
    }
}

/// A building under construction and the resource it still needs.
#[derive(Clone, Copy, Debug, Eq, PartialEq, Structural)]
pub struct Construction {
    pub id: u32,
    pub building: Building,
    pub need_resource: i32,
}

/// The state of the build simulator as plain values.
pub struct BuildState {
    pub tick: int,
    pub resource: int,
    pub population_provide: int,
    pub buildings: Seq<usize>,
    pub builders: Seq<Builder>,
    pub next_building_id: int,
    pub constructions: Seq<Construction>,
}

pub open spec fn min_int(a: int, b: int) -> int {
    if a <= b {
        a
    } else {
        b
    }
}

/// Index of the first construction with the given id at or after `from`; `cs.len()` if none.
pub open spec fn first_with_id(cs: Seq<Construction>, id: u32, from: int) -> int
    decreases cs.len() - from,
{
    if from >= cs.len() || from < 0 {
        cs.len() as int
    } else if cs[from].id == id {
        from
    } else {
        first_with_id(cs, id, from + 1)
    }
}

/// What one builder does during a tick to the resource and the constructions.
pub open spec fn apply_builder(p: &BuildProperties, b: Builder, r: int, cs: Seq<Construction>) -> (int, Seq<Construction>) {
    if b.ticks_to_start > 0 {
        (r, cs)
    } else {
        match b.task {
            BuildTask::Harvest => (r + p.harvest_rate, cs),
            BuildTask::Build(id) => {
                let j = first_with_id(cs, id, 0);
                if j < cs.len() {
                    let spend = min_int(min_int(p.construct_rate as int, r), cs[j].need_resource as int);
                    (
                        r - spend,
                        cs.update(
                            j,
                            Construction {
                                id: cs[j].id,
                                building: cs[j].building,
                                need_resource: (cs[j].need_resource - spend) as i32,
                            },
                        ),
                    )
                } else {
                    (r, cs)
                }
            },
            BuildTask::Idle => (r, cs),
        }
    }
}

/// What the builders, one after the other, do during a tick.
pub open spec fn apply_builders(p: &BuildProperties, bs: Seq<Builder>, r: int, cs: Seq<Construction>) -> (int, Seq<Construction>)
    decreases bs.len(),
{
    if bs.len() == 0 {
        (r, cs)
    } else {
        let (r1, cs1) = apply_builders(p, bs.drop_last(), r, cs);
        apply_builder(p, bs.last(), r1, cs1)
    }
}

/// A builder one tick closer to its task.
pub open spec fn countdown(b: Builder) -> Builder {
    if b.ticks_to_start > 0 {
        Builder { task: b.task, ticks_to_start: (b.ticks_to_start - 1) as i32 }
    } else {
        b
    }
}

/// The constructions that still need resource, in order.
pub open spec fn unfinished(cs: Seq<Construction>) -> Seq<Construction>
    decreases cs.len(),
{
    if cs.len() == 0 {
        cs
    } else if cs.last().need_resource > 0 {
        unfinished(cs.drop_last()).push(cs.last())
    } else {
        unfinished(cs.drop_last())
    }
}

/// The population the finished constructions provide.
pub open spec fn finished_population(p: &BuildProperties, cs: Seq<Construction>) -> int
    decreases cs.len(),
{
    if cs.len() == 0 {
        0
    } else {
        finished_population(p, cs.drop_last()) + if cs.last().need_resource == 0 {
            p.population_provide@[spec_building_index(cs.last().building)] as int
        } else {
            0
        }
    }
}

/// The number of finished constructions of a kind.
pub open spec fn finished_count(cs: Seq<Construction>, b: Building) -> int
    decreases cs.len(),
{
    if cs.len() == 0 {
        0
    } else {
        finished_count(cs.drop_last(), b) + if cs.last().need_resource == 0 && cs.last().building == b {
            1int
        } else {
            0
        }
    }
}

pub open spec fn has_construction(cs: Seq<Construction>, id: u32) -> bool {
    exists|k: int| 0 <= k < cs.len() && cs[k].id == id
}

/// A builder whose construction is gone goes idle.
pub open spec fn unassign(b: Builder, cs: Seq<Construction>) -> Builder {
    match b.task {
        BuildTask::Build(id) => if has_construction(cs, id) {
            b
        } else {
            Builder { task: BuildTask::Idle, ticks_to_start: b.ticks_to_start }
        },
        _ => b,
    }
}

/// The state after one tick.
pub open spec fn simulated(p: &BuildProperties, s: BuildState) -> BuildState {
    let (r, cs) = apply_builders(p, s.builders, s.resource, s.constructions);
    let left = unfinished(cs);
    BuildState {
        tick: s.tick + 1,
        resource: r,
        population_provide: s.population_provide + finished_population(p, cs),
        buildings: seq![
            (s.buildings[0] + finished_count(cs, Building::House)) as usize,
            (s.buildings[1] + finished_count(cs, Building::RangedBase)) as usize,
        ],
        builders: s.builders.map_values(|b: Builder| unassign(countdown(b), left)),
        next_building_id: s.next_building_id,
        constructions: left,
    }
}

/// One builder's work in a tick, from resource `r` and constructions `cs`, stays within `i32`:
/// harvesting adds the harvest rate; building spends the least of the construct rate, the
/// resource and what the construction still needs, from both.
pub open spec fn builder_fits(p: &BuildProperties, b: Builder, r: int, cs: Seq<Construction>) -> bool {
    b.ticks_to_start > 0 || match b.task {
        BuildTask::Harvest => in_i32(r + p.harvest_rate),
        BuildTask::Build(id) => {
            let j = first_with_id(cs, id, 0);
            j < cs.len() ==> {
                let spend = min_int(min_int(p.construct_rate as int, r), cs[j].need_resource as int);
                in_i32(r - spend) && in_i32(cs[j].need_resource - spend)
            }
        },
        BuildTask::Idle => true,
    }
}

/// The work of the builders `bs`, one after the other, stays within `i32`.
pub open spec fn builders_fit(p: &BuildProperties, bs: Seq<Builder>, r: int, cs: Seq<Construction>) -> bool
    decreases bs.len(),
{
    bs.len() == 0 || {
        &&& builders_fit(p, bs.drop_last(), r, cs)
        &&& builder_fits(
            p,
            bs.last(),
            apply_builders(p, bs.drop_last(), r, cs).0,
            apply_builders(p, bs.drop_last(), r, cs).1,
        )
    }
}

/// Adding the population of the finished constructions of `cs`, one after the other, to `pop`
/// stays within `i32`.
pub open spec fn population_fits(p: &BuildProperties, pop: int, cs: Seq<Construction>) -> bool
    decreases cs.len(),
{
    cs.len() == 0 || (population_fits(p, pop, cs.drop_last()) && in_i32(pop + finished_population(p, cs)))
}

/// Whether a tick can be played out without overflow: each step of the builders' work, each
/// sum of the population, the counts of buildings and the tick stay within their types.
pub open spec fn simulate_fits(p: &BuildProperties, s: BuildState) -> bool {
    let cs1 = apply_builders(p, s.builders, s.resource, s.constructions).1;
    &&& p.wf()
    &&& s.buildings.len() == 2
    &&& builders_fit(p, s.builders, s.resource, s.constructions)
    &&& population_fits(p, s.population_provide, cs1)
    &&& s.buildings[0] + finished_count(cs1, Building::House) <= usize::MAX
    &&& s.buildings[1] + finished_count(cs1, Building::RangedBase) <= usize::MAX
    &&& s.tick < i32::MAX
}

proof fn lemma_builders_fit_prefix(p: &BuildProperties, bs: Seq<Builder>, r: int, cs: Seq<Construction>, k: int)
    requires
        builders_fit(p, bs, r, cs),
        0 <= k <= bs.len(),
    ensures
        builders_fit(p, bs.take(k), r, cs),
    decreases bs.len() - k,
{
    if k == bs.len() {
        assert(bs.take(k) =~= bs);
    } else {
        lemma_builders_fit_prefix(p, bs, r, cs, k + 1);
        assert(bs.take(k + 1).drop_last() =~= bs.take(k));
    }
}

proof fn lemma_population_fits_prefix(p: &BuildProperties, pop: int, cs: Seq<Construction>, k: int)
    requires
        population_fits(p, pop, cs),
        0 <= k <= cs.len(),
    ensures
        population_fits(p, pop, cs.take(k)),
    decreases cs.len() - k,
{
    if k == cs.len() {
        assert(cs.take(k) =~= cs);
    } else {
        lemma_population_fits_prefix(p, pop, cs, k + 1);
        assert(cs.take(k + 1).drop_last() =~= cs.take(k));
    }
}

proof fn lemma_finished_count_nonneg(cs: Seq<Construction>, b: Building)
    ensures
        0 <= finished_count(cs, b) <= cs.len(),
    decreases cs.len(),
{
    if cs.len() > 0 {
        lemma_finished_count_nonneg(cs.drop_last(), b);
    }
}

proof fn lemma_finished_count_prefix(cs: Seq<Construction>, b: Building, k: int)
    requires
        0 <= k <= cs.len(),
    ensures
        0 <= finished_count(cs.take(k), b) <= finished_count(cs, b),
    decreases cs.len() - k,
{
    lemma_finished_count_nonneg(cs.take(k), b);
    if k == cs.len() {
        assert(cs.take(k) =~= cs);
    } else {
        lemma_finished_count_prefix(cs, b, k + 1);
        assert(cs.take(k + 1).drop_last() =~= cs.take(k));
    }
}

/// A model of the player's economy: builders harvest resource and spend it on constructions,
/// which provide population once finished.
#[derive(Debug)]
pub struct BuildSimulator {
    tick: i32,
    resource: i32,
    population_provide: i32,
    buildings: Vec<usize>,
    builders: Vec<Builder>,
    next_building_id: u32,
    constructions: Vec<Construction>,
}

impl View for BuildSimulator {
    type V = BuildState;

    closed spec fn view(&self) -> BuildState {
        BuildState {
            tick: self.tick as int,
            resource: self.resource as int,
            population_provide: self.population_provide as int,
            buildings: self.buildings@,
            builders: self.builders@,
            next_building_id: self.next_building_id as int,
            constructions: self.constructions@,
        }
    }
}


/// The state after builder `builder_index` is given `task`: one that changes task first walks
/// `transfer_ticks` ticks.
pub open spec fn assigned(p: &BuildProperties, s: BuildState, builder_index: int, task: BuildTask) -> BuildState {
    BuildState {
        builders: if s.builders[builder_index].task == task {
            s.builders
        } else {
            s.builders.update(builder_index, Builder { task, ticks_to_start: p.transfer_ticks })
        },
        ..s
    }
}

/// The state after the start cost of `building` is paid, its construction opened with the next
/// id and builder `builder_index` sent to it.
pub open spec fn built(p: &BuildProperties, s: BuildState, builder_index: int, building: Building) -> BuildState {
    assigned(
        p,
        BuildState {
            resource: s.resource - p.start_costs@[spec_building_index(building)],
            constructions: s.constructions.push(
                Construction {
                    id: s.next_building_id as u32,
                    building,
                    need_resource: p.construction_costs@[spec_building_index(building)],
                },
            ),
            next_building_id: s.next_building_id + 1,
            ..s
        },
        builder_index,
        BuildTask::Build(s.next_building_id as u32),
    )
}

/// The state after a new idle builder is paid for.
pub open spec fn bought(p: &BuildProperties, s: BuildState) -> BuildState {
    BuildState {
        resource: s.resource - p.builder_cost,
        builders: s.builders.push(Builder { task: BuildTask::Idle, ticks_to_start: 0 }),
        ..s
    }
}

/// Whether every construction has an id below the next one to be given out, so that a new
/// construction's id is unlike every earlier one.
pub open spec fn ids_fresh(s: BuildState) -> bool {
    forall|k: int| 0 <= k < s.constructions.len() ==> #[trigger] s.constructions[k].id < s.next_building_id
}

proof fn lemma_max_id_bounds(cs: Seq<Construction>)
    ensures
        forall|k: int| 0 <= k < cs.len() ==> #[trigger] cs[k].id <= max_id(cs),
    decreases cs.len(),
{
    if cs.len() > 0 {
        lemma_max_id_bounds(cs.drop_last());
        assert forall|k: int| 0 <= k < cs.len() implies #[trigger] cs[k].id <= max_id(cs) by {
            if k < cs.len() - 1 {
                assert(cs.drop_last()[k] == cs[k]);
            }
        }
    }
}

proof fn lemma_first_with_id_range(cs: Seq<Construction>, id: u32, from: int)
    requires
        0 <= from,
    ensures
        from <= first_with_id(cs, id, from) || first_with_id(cs, id, from) == cs.len(),
        0 <= first_with_id(cs, id, from) <= cs.len(),
    decreases cs.len() - from,
{
    if from < cs.len() && cs[from].id != id {
        lemma_first_with_id_range(cs, id, from + 1);
    }
}

proof fn lemma_apply_builders_keeps_ids(p: &BuildProperties, bs: Seq<Builder>, r: int, cs: Seq<Construction>)
    ensures
        apply_builders(p, bs, r, cs).1.len() == cs.len(),
        forall|k: int| 0 <= k < cs.len() ==> #[trigger] apply_builders(p, bs, r, cs).1[k].id == cs[k].id,
    decreases bs.len(),
{
    if bs.len() > 0 {
        lemma_apply_builders_keeps_ids(p, bs.drop_last(), r, cs);
        let prev = apply_builders(p, bs.drop_last(), r, cs);
        let next = apply_builder(p, bs.last(), prev.0, prev.1);
        match bs.last().task {
            BuildTask::Build(id) => lemma_first_with_id_range(prev.1, id, 0),
            _ => {},
        }
        assert(next.1.len() == prev.1.len());
        assert forall|k: int| 0 <= k < cs.len() implies #[trigger] next.1[k].id == cs[k].id by {
            assert(prev.1[k].id == cs[k].id);
        }
    }
}

proof fn lemma_unfinished_ids(cs: Seq<Construction>, bound: int)
    requires
        forall|k: int| 0 <= k < cs.len() ==> #[trigger] cs[k].id < bound,
    ensures
        forall|k: int| 0 <= k < unfinished(cs).len() ==> #[trigger] unfinished(cs)[k].id < bound,
    decreases cs.len(),
{
    if cs.len() > 0 {
        let front = cs.drop_last();
        assert forall|k: int| 0 <= k < front.len() implies #[trigger] front[k].id < bound by {
            assert(front[k] == cs[k]);
        }
        lemma_unfinished_ids(front, bound);
        assert(cs[cs.len() - 1].id < bound);
    }
}

/// A tick gives out no id: when every construction's id is below the next one, that still holds
/// after the tick.
pub proof fn lemma_simulate_keeps_ids_fresh(p: &BuildProperties, s: BuildState)
    requires
        ids_fresh(s),
    ensures
        ids_fresh(simulated(p, s)),
{
    lemma_apply_builders_keeps_ids(p, s.builders, s.resource as int, s.constructions);
    let cs = apply_builders(p, s.builders, s.resource as int, s.constructions).1;
    assert forall|k: int| 0 <= k < cs.len() implies #[trigger] cs[k].id < s.next_building_id by {
        assert(cs[k].id == s.constructions[k].id);
    }
    lemma_unfinished_ids(cs, s.next_building_id as int);
}

proof fn lemma_apply_builders_nonneg(p: &BuildProperties, bs: Seq<Builder>, r: int, cs: Seq<Construction>)
    requires
        p.harvest_rate >= 0,
        p.construct_rate >= 0,
        r >= 0,
        forall|k: int| 0 <= k < cs.len() ==> #[trigger] cs[k].need_resource >= 0,
    ensures
        apply_builders(p, bs, r, cs).0 >= 0,
        apply_builders(p, bs, r, cs).1.len() == cs.len(),
        forall|k: int| 0 <= k < cs.len() ==> #[trigger] apply_builders(p, bs, r, cs).1[k].need_resource >= 0,
    decreases bs.len(),
{
    if bs.len() > 0 {
        lemma_apply_builders_nonneg(p, bs.drop_last(), r, cs);
        let prev = apply_builders(p, bs.drop_last(), r, cs);
        let b = bs.last();
        if b.ticks_to_start <= 0 {
            if let BuildTask::Build(id) = b.task {
                lemma_first_with_id_range(prev.1, id, 0);
                let j = first_with_id(prev.1, id, 0);
                if j < prev.1.len() {
                    assert(prev.1[j].need_resource >= 0);
                    let next = apply_builder(p, b, prev.0, prev.1);
                    assert forall|k: int| 0 <= k < cs.len() implies #[trigger] next.1[k].need_resource >= 0 by {
                        if k != j {
                            assert(next.1[k] == prev.1[k]);
                        }
                    }
                }
            }
        }
    }
}

proof fn lemma_unfinished_need(cs: Seq<Construction>)
    ensures
        forall|k: int| 0 <= k < unfinished(cs).len() ==> #[trigger] unfinished(cs)[k].need_resource > 0,
    decreases cs.len(),
{
    if cs.len() > 0 {
        lemma_unfinished_need(cs.drop_last());
    }
}

/// A tick moves time on by one, spends no more resource than there is, keeps every builder,
/// each a tick nearer its task and only on a construction still open, and leaves only
/// constructions that still need resource.
pub proof fn lemma_simulated_keeps_economy(p: &BuildProperties, s: BuildState)
    requires
        p.harvest_rate >= 0,
        p.construct_rate >= 0,
        s.resource >= 0,
        forall|k: int| 0 <= k < s.constructions.len() ==> #[trigger] s.constructions[k].need_resource >= 0,
        forall|k: int| 0 <= k < s.builders.len() ==> #[trigger] s.builders[k].ticks_to_start >= 0,
    ensures
        simulated(p, s).tick == s.tick + 1,
        simulated(p, s).resource >= 0,
        forall|k: int|
            0 <= k < simulated(p, s).constructions.len() ==> #[trigger] simulated(p, s).constructions[k].need_resource > 0,
        simulated(p, s).builders.len() == s.builders.len(),
        forall|k: int|
            0 <= k < s.builders.len() ==> #[trigger] simulated(p, s).builders[k].ticks_to_start == if s.builders[k].ticks_to_start
                > 0 {
                s.builders[k].ticks_to_start - 1
            } else {
                0
            },
        forall|k: int|
            0 <= k < s.builders.len() ==> ((#[trigger] simulated(p, s).builders[k]).task matches BuildTask::Build(id)
                ==> has_construction(simulated(p, s).constructions, id)),
{
    lemma_apply_builders_nonneg(p, s.builders, s.resource as int, s.constructions);
    let cs = apply_builders(p, s.builders, s.resource as int, s.constructions).1;
    lemma_unfinished_need(cs);
}

/// How many of the constructions `cs` are of kind `b`.
pub open spec fn kind_in(cs: Seq<Construction>, b: Building) -> int
    decreases cs.len(),
{
    if cs.len() == 0 {
        0
    } else {
        kind_in(cs.drop_last(), b) + if cs.last().building == b {
            1int
        } else {
            0
        }
    }
}

proof fn lemma_apply_builders_kinds(p: &BuildProperties, bs: Seq<Builder>, r: int, cs: Seq<Construction>)
    requires
        builders_fit(p, bs, r, cs),
        forall|k: int| 0 <= k < cs.len() ==> #[trigger] cs[k].need_resource >= 0,
    ensures
        apply_builders(p, bs, r, cs).1.len() == cs.len(),
        forall|k: int| 0 <= k < cs.len() ==> #[trigger] apply_builders(p, bs, r, cs).1[k].building == cs[k].building,
        forall|k: int| 0 <= k < cs.len() ==> #[trigger] apply_builders(p, bs, r, cs).1[k].need_resource >= 0,
    decreases bs.len(),
{
    if bs.len() > 0 {
        lemma_apply_builders_kinds(p, bs.drop_last(), r, cs);
        let prev = apply_builders(p, bs.drop_last(), r, cs);
        let b = bs.last();
        let next = apply_builder(p, b, prev.0, prev.1);
        if b.ticks_to_start <= 0 {
            if let BuildTask::Build(id) = b.task {
                lemma_first_with_id_range(prev.1, id, 0);
                let j = first_with_id(prev.1, id, 0);
                if j < prev.1.len() {
                    assert(prev.1[j].need_resource >= 0);
                    assert(builder_fits(p, b, prev.0, prev.1));
                    assert forall|k: int| 0 <= k < cs.len() implies #[trigger] next.1[k].building == cs[k].building
                        && next.1[k].need_resource >= 0 by {
                        if k != j {
                            assert(next.1[k] == prev.1[k]);
                        }
                    }
                }
            }
        }
        assert forall|k: int| 0 <= k < cs.len() implies #[trigger] next.1[k].building == cs[k].building by {
            assert(prev.1[k].building == cs[k].building);
        }
        assert forall|k: int| 0 <= k < cs.len() implies #[trigger] next.1[k].need_resource >= 0 by {
            assert(prev.1[k].need_resource >= 0);
        }
    }
}

proof fn lemma_kind_in_same(a: Seq<Construction>, c: Seq<Construction>, b: Building)
    requires
        a.len() == c.len(),
        forall|k: int| 0 <= k < a.len() ==> #[trigger] a[k].building == c[k].building,
    ensures
        kind_in(a, b) == kind_in(c, b),
    decreases a.len(),
{
    if a.len() > 0 {
        lemma_kind_in_same(a.drop_last(), c.drop_last(), b);
        assert(a[a.len() - 1].building == c[c.len() - 1].building);
    }
}

proof fn lemma_kind_in_split(cs: Seq<Construction>, b: Building)
    requires
        forall|k: int| 0 <= k < cs.len() ==> #[trigger] cs[k].need_resource >= 0,
    ensures
        kind_in(cs, b) == finished_count(cs, b) + kind_in(unfinished(cs), b),
    decreases cs.len(),
{
    if cs.len() > 0 {
        let front = cs.drop_last();
        assert forall|k: int| 0 <= k < front.len() implies #[trigger] front[k].need_resource >= 0 by {
            assert(front[k] == cs[k]);
        }
        lemma_kind_in_split(front, b);
        assert(cs[cs.len() - 1].need_resource >= 0);
        if cs.last().need_resource > 0 {
            assert(unfinished(cs) == unfinished(front).push(cs.last()));
            assert(unfinished(cs).drop_last() =~= unfinished(front));
        }
    }
}

/// A tick turns each construction it finishes into a building of its kind: for each kind, the
/// buildings grow by exactly as many constructions of that kind as the tick takes away.
pub proof fn lemma_tick_builds_finished(p: &BuildProperties, s: BuildState)
    requires
        simulate_fits(p, s),
        forall|k: int| 0 <= k < s.constructions.len() ==> #[trigger] s.constructions[k].need_resource >= 0,
    ensures
        forall|b: Building|
            #[trigger] simulated(p, s).buildings[spec_building_index(b)] == s.buildings[spec_building_index(b)]
                + kind_in(s.constructions, b) - kind_in(simulated(p, s).constructions, b),
{
    let cs1 = apply_builders(p, s.builders, s.resource, s.constructions).1;
    lemma_apply_builders_kinds(p, s.builders, s.resource, s.constructions);
    assert forall|b: Building|
        #[trigger] simulated(p, s).buildings[spec_building_index(b)] == s.buildings[spec_building_index(b)]
            + kind_in(s.constructions, b) - kind_in(simulated(p, s).constructions, b) by {
        lemma_kind_in_same(cs1, s.constructions, b);
        lemma_kind_in_split(cs1, b);
        lemma_finished_count_nonneg(cs1, b);
    }
}

proof fn lemma_finished_population_counts(p: &BuildProperties, cs: Seq<Construction>)
    requires
        p.wf(),
    ensures
        finished_population(p, cs) == p.population_provide@[0] * finished_count(cs, Building::House)
            + p.population_provide@[1] * finished_count(cs, Building::RangedBase),
    decreases cs.len(),
{
    if cs.len() > 0 {
        lemma_finished_population_counts(p, cs.drop_last());
        let h = finished_count(cs.drop_last(), Building::House);
        let b = finished_count(cs.drop_last(), Building::RangedBase);
        let a0 = p.population_provide@[0] as int;
        let a1 = p.population_provide@[1] as int;
        assert(a0 * (h + 1) == a0 * h + a0) by (nonlinear_arith);
        assert(a1 * (b + 1) == a1 * b + a1) by (nonlinear_arith);
    }
}

/// A tick adds to the population what the buildings it finishes provide: each house and each
/// ranged base that the tick takes away from the constructions adds its kind's population.
pub proof fn lemma_tick_adds_population(p: &BuildProperties, s: BuildState)
    requires
        simulate_fits(p, s),
        forall|k: int| 0 <= k < s.constructions.len() ==> #[trigger] s.constructions[k].need_resource >= 0,
    ensures
        simulated(p, s).population_provide == s.population_provide + p.population_provide@[0] * (kind_in(
            s.constructions,
            Building::House,
        ) - kind_in(simulated(p, s).constructions, Building::House)) + p.population_provide@[1] * (kind_in(
            s.constructions,
            Building::RangedBase,
        ) - kind_in(simulated(p, s).constructions, Building::RangedBase)),
{
    let cs1 = apply_builders(p, s.builders, s.resource, s.constructions).1;
    lemma_apply_builders_kinds(p, s.builders, s.resource, s.constructions);
    lemma_kind_in_same(cs1, s.constructions, Building::House);
    lemma_kind_in_same(cs1, s.constructions, Building::RangedBase);
    lemma_kind_in_split(cs1, Building::House);
    lemma_kind_in_split(cs1, Building::RangedBase);
    lemma_finished_population_counts(p, cs1);
}

/// The largest id among the constructions, `-1` when there are none.
pub open spec fn max_id(cs: Seq<Construction>) -> int
    decreases cs.len(),
{
    if cs.len() == 0 {
        -1
    } else {
        let m = max_id(cs.drop_last());
        if cs.last().id as int > m {
            cs.last().id as int
        } else {
            m
        }
    }
}

impl BuildSimulator {
    /// Every construction has an id below the next one to be given out.
    #[verifier::type_invariant]
    closed spec fn ids_below_next(self) -> bool {
        ids_fresh(self@)
    }

    /// A simulation at tick 0 with the given resource, population, builders and constructions;
    /// new constructions get ids above those given.
    pub fn new(resource: i32, population_provide: i32, builders: Vec<Builder>, constructions: Vec<Construction>) -> (r: Self)
        requires
            forall|k: int| 0 <= k < constructions.len() ==> #[trigger] constructions@[k].id < u32::MAX,
        ensures
            r@.tick == 0,
            r@.resource == resource,
            r@.population_provide == population_provide,
            r@.buildings == seq![0usize, 0usize],
            r@.builders == builders@,
            r@.next_building_id == max_id(constructions@) + 1,
            r@.constructions == constructions@,
            ids_fresh(r@),
    {
        let mut next: u32 = 0;
        let mut k: usize = 0;
        while k < constructions.len()
            invariant
                k <= constructions.len(),
                forall|j: int| 0 <= j < constructions.len() ==> #[trigger] constructions@[j].id < u32::MAX,
                next == max_id(constructions@.take(k as int)) + 1,
            decreases constructions.len() - k,
        {
            assert(constructions@.take(k + 1).drop_last() =~= constructions@.take(k as int));
            if constructions[k].id >= next {
                next = constructions[k].id + 1;
            }
            k = k + 1;
        }
        assert(constructions@.take(constructions.len() as int) =~= constructions@);
        let mut buildings = Vec::new();
        buildings.push(0);
        buildings.push(0);
        proof {
            lemma_max_id_bounds(constructions@);
        }
        let r = Self {
            tick: 0,
            resource,
            population_provide,
            buildings,
            builders,
            next_building_id: next,
            constructions,
        };
        assert(r@.buildings =~= seq![0usize, 0usize]);
        r
    }

    pub fn tick(&self) -> (r: i32)
        ensures
            r == self@.tick,
    {
        self.tick
    }

    pub fn resource(&self) -> (r: i32)
        ensures
            r == self@.resource,
    {
        self.resource
    }

    pub fn population_provide(&self) -> (r: i32)
        ensures
            r == self@.population_provide,
    {
        self.population_provide
    }

    /// Finished buildings by kind: houses, then ranged bases.
    pub fn buildings(&self) -> (r: &Vec<usize>)
        ensures
            r@ == self@.buildings,
    {
        &self.buildings
    }

    pub fn builders(&self) -> (r: &Vec<Builder>)
        ensures
            r@ == self@.builders,
    {
        &self.builders
    }

    pub fn constructions(&self) -> (r: &Vec<Construction>)
        ensures
            r@ == self@.constructions,
    {
        &self.constructions
    }

    /// A copy of the simulation.
    pub fn duplicate(&self) -> (r: Self)
        ensures
            r@ == self@,
            ids_fresh(r@),
    {
        proof {
            use_type_invariant(self);
        }
        let mut buildings: Vec<usize> = Vec::new();
        let mut i: usize = 0;
        while i < self.buildings.len()
            invariant
                i <= self.buildings.len(),
                buildings@ == self.buildings@.take(i as int),
            decreases self.buildings.len() - i,
        {
            buildings.push(self.buildings[i]);
            assert(self.buildings@.take(i + 1) =~= self.buildings@.take(i as int).push(self.buildings@[i as int]));
            i = i + 1;
        }
        let mut builders: Vec<Builder> = Vec::new();
        let mut j: usize = 0;
        while j < self.builders.len()
            invariant
                j <= self.builders.len(),
                builders@ == self.builders@.take(j as int),
            decreases self.builders.len() - j,
        {
            builders.push(self.builders[j]);
            assert(self.builders@.take(j + 1) =~= self.builders@.take(j as int).push(self.builders@[j as int]));
            j = j + 1;
        }
        let mut constructions: Vec<Construction> = Vec::new();
        let mut k: usize = 0;
        while k < self.constructions.len()
            invariant
                k <= self.constructions.len(),
                constructions@ == self.constructions@.take(k as int),
            decreases self.constructions.len() - k,
        {
            constructions.push(self.constructions[k]);
            assert(self.constructions@.take(k + 1) =~= self.constructions@.take(k as int).push(self.constructions@[k as int]));
            k = k + 1;
        }
        assert(self.buildings@.take(self.buildings.len() as int) =~= self.buildings@);
        assert(self.builders@.take(self.builders.len() as int) =~= self.builders@);
        assert(self.constructions@.take(self.constructions.len() as int) =~= self.constructions@);
        Self {
            tick: self.tick,
            resource: self.resource,
            population_provide: self.population_provide,
            buildings,
            builders,
            next_building_id: self.next_building_id,
            constructions,
        }
    }

    /// Whether two simulations are in the same state.
    pub(crate) fn same_as(&self, other: &Self) -> (r: bool)
        ensures
            r == (self@ == other@),
    {
        if self.tick != other.tick || self.resource != other.resource || self.population_provide != other.population_provide
            || self.next_building_id != other.next_building_id || self.buildings.len() != other.buildings.len()
            || self.builders.len() != other.builders.len() || self.constructions.len() != other.constructions.len() {
            return false;
        }
        let mut i: usize = 0;
        while i < self.buildings.len()
            invariant
                self.buildings.len() == other.buildings.len(),
                i <= self.buildings.len(),
                forall|k: int| 0 <= k < i ==> self.buildings@[k] == other.buildings@[k],
            decreases self.buildings.len() - i,
        {
            if self.buildings[i] != other.buildings[i] {
                return false;
            }
            i = i + 1;
        }
        let mut j: usize = 0;
        while j < self.builders.len()
            invariant
                self.builders.len() == other.builders.len(),
                j <= self.builders.len(),
                forall|k: int| 0 <= k < j ==> self.builders@[k] == other.builders@[k],
            decreases self.builders.len() - j,
        {
            if self.builders[j] != other.builders[j] {
                return false;
            }
            j = j + 1;
        }
        let mut k: usize = 0;
        while k < self.constructions.len()
            invariant
                self.constructions.len() == other.constructions.len(),
                k <= self.constructions.len(),
                forall|x: int| 0 <= x < k ==> self.constructions@[x] == other.constructions@[x],
            decreases self.constructions.len() - k,
        {
            if self.constructions[k] != other.constructions[k] {
                return false;
            }
            k = k + 1;
        }
        assert(self.buildings@ =~= other.buildings@);
        assert(self.builders@ =~= other.builders@);
        assert(self.constructions@ =~= other.constructions@);
        true
    }

    /// Whether a tick can be played out now without overflow, as `simulate_fits` tells: a dry run
    /// of the tick in wider integers.
    pub(crate) fn can_simulate(&self, properties: &BuildProperties) -> (r: bool)
        ensures
            r == simulate_fits(properties, self@),
    {
        let p = properties;
        if p.start_costs.len() != 2 || p.construction_costs.len() != 2 || p.population_provide.len() != 2
            || self.buildings.len() != 2 || self.tick == i32::MAX {
            return false;
        }
        let ghost b0 = self.builders@;
        let ghost r0 = self.resource as int;
        let ghost cs0 = self.constructions@;
        let mut resource: i32 = self.resource;
        let mut cs: Vec<Construction> = Vec::new();
        let mut c: usize = 0;
        while c < self.constructions.len()
            invariant
                c <= self.constructions.len(),
                cs@ == self.constructions@.take(c as int),
            decreases self.constructions.len() - c,
        {
            cs.push(self.constructions[c]);
            assert(self.constructions@.take(c + 1) =~= self.constructions@.take(c as int).push(self.constructions@[c as int]));
            c = c + 1;
        }
        assert(self.constructions@.take(self.constructions.len() as int) =~= self.constructions@);
        let mut i: usize = 0;
        while i < self.builders.len()
            invariant
                p == properties,
                b0 == self.builders@,
                r0 == self.resource,
                cs0 == self.constructions@,
                p.wf(),
                i <= b0.len(),
                (resource as int, cs@) == apply_builders(p, b0.take(i as int), r0, cs0),
                builders_fit(p, b0.take(i as int), r0, cs0),
            decreases b0.len() - i,
        {
            proof {
                assert(b0.take(i + 1).drop_last() =~= b0.take(i as int));
                assert(b0.take(i + 1).last() == b0[i as int]);
            }
            let b = self.builders[i];
            if b.ticks_to_start <= 0 {
                match b.task {
                    BuildTask::Harvest => {
                        let next = (resource as i64) + (p.harvest_rate as i64);
                        if next < i32::MIN as i64 || next > i32::MAX as i64 {
                            proof {
                                if builders_fit(p, b0, r0, cs0) {
                                    lemma_builders_fit_prefix(p, b0, r0, cs0, i + 1);
                                    let t = b0.take(i + 1);
                                    assert(t.drop_last() =~= b0.take(i as int));
                                    assert(t.last() == b);
                                    assert(builders_fit(p, t, r0, cs0));
                                    assert(builder_fits(p, b, resource as int, cs@));
                                }
                                assert(!simulate_fits(properties, self@));
                            }
                            return false;
                        }
                        resource = next as i32;
                    },
                    BuildTask::Build(id) => {
                        let mut j: usize = 0;
                        while j < cs.len() && cs[j].id != id
                            invariant
                                j <= cs.len(),
                                forall|k: int| 0 <= k < j ==> #[trigger] cs@[k].id != id,
                            decreases cs.len() - j,
                        {
                            j = j + 1;
                        }
                        proof {
                            lemma_first_with_id(cs@, id, 0, j as int);
                        }
                        if j < cs.len() {
                            let con = cs[j];
                            let mut spend = p.construct_rate;
                            if resource < spend {
                                spend = resource;
                            }
                            if con.need_resource < spend {
                                spend = con.need_resource;
                            }
                            let left = (resource as i64) - (spend as i64);
                            let need = (con.need_resource as i64) - (spend as i64);
                            if left < i32::MIN as i64 || left > i32::MAX as i64 || need < i32::MIN as i64 || need > i32::MAX as i64 {
                                proof {
                                    if builders_fit(p, b0, r0, cs0) {
                                        lemma_builders_fit_prefix(p, b0, r0, cs0, i + 1);
                                        let t = b0.take(i + 1);
                                        assert(t.drop_last() =~= b0.take(i as int));
                                        assert(t.last() == b);
                                        assert(builders_fit(p, t, r0, cs0));
                                        assert(builder_fits(p, b, resource as int, cs@));
                                    }
                                    assert(!simulate_fits(properties, self@));
                                }
                                return false;
                            }
                            cs.set(j, Construction { id: con.id, building: con.building, need_resource: need as i32 });
                            resource = left as i32;
                        }
                    },
                    BuildTask::Idle => {},
                }
            }
            i = i + 1;
        }
        proof {
            assert(b0.take(b0.len() as int) =~= b0);
        }
        let ghost cs1 = cs@;
        let ghost pop0 = self.population_provide as int;
        let mut population: i32 = self.population_provide;
        let mut houses: usize = 0;
        let mut bases: usize = 0;
        let mut k: usize = 0;
        while k < cs.len()
            invariant
                p == properties,
                cs1 == cs@,
                p.wf(),
                b0 == self.builders@,
                r0 == self.resource,
                cs0 == self.constructions@,
                pop0 == self.population_provide,
                cs1 == apply_builders(p, b0, r0, cs0).1,
                builders_fit(p, b0, r0, cs0),
                k <= cs1.len(),
                population == pop0 + finished_population(p, cs1.take(k as int)),
                population_fits(p, pop0, cs1.take(k as int)),
                houses == finished_count(cs1.take(k as int), Building::House),
                bases == finished_count(cs1.take(k as int), Building::RangedBase),
                houses <= k,
                bases <= k,
            decreases cs1.len() - k,
        {
            proof {
                assert(cs1.take(k + 1).drop_last() =~= cs1.take(k as int));
                assert(cs1.take(k + 1).last() == cs1[k as int]);
            }
            let con = cs[k];
            if con.need_resource == 0 {
                let next = (population as i64) + (p.population_provide[con.building.index()] as i64);
                if next < i32::MIN as i64 || next > i32::MAX as i64 {
                    proof {
                        if population_fits(p, pop0, cs1) {
                            lemma_population_fits_prefix(p, pop0, cs1, k + 1);
                            let t = cs1.take(k + 1);
                            assert(t.drop_last() =~= cs1.take(k as int));
                            assert(population_fits(p, pop0, t));
                            assert(t.last() == con);
                        }
                        assert(!simulate_fits(properties, self@));
                    }
                    return false;
                }
                population = next as i32;
                match con.building {
                    Building::House => {
                        houses = houses + 1;
                    },
                    Building::RangedBase => {
                        bases = bases + 1;
                    },
                }
            }
            k = k + 1;
        }
        proof {
            assert(cs1.take(cs1.len() as int) =~= cs1);
        }
        (self.buildings[0] as u128) + (houses as u128) <= usize::MAX as u128 && (self.buildings[1] as u128) + (bases as u128)
            <= usize::MAX as u128
    }

    /// Whether `build` can be played now without overflow: the builder exists, the start cost
    /// can be paid within `i32` and another id is left.
    pub(crate) fn can_build(&self, builder_index: usize, building: Building, properties: &BuildProperties) -> (r: bool)
        requires
            properties.wf(),
        ensures
            r == (builder_index < self@.builders.len() && in_i32(self@.resource - properties.start_costs@[spec_building_index(building)])
                && self@.next_building_id < u32::MAX),
    {
        let cost = properties.start_costs[building.index()];
        builder_index < self.builders.len() && (self.resource as i64) - (cost as i64) >= i32::MIN as i64 && (self.resource as i64)
            - (cost as i64) <= i32::MAX as i64 && self.next_building_id < u32::MAX
    }

    /// Whether `buy_builder` can be played now without overflow.
    pub(crate) fn can_buy_builder(&self, properties: &BuildProperties) -> (r: bool)
        ensures
            r == in_i32(self@.resource - properties.builder_cost),
    {
        (self.resource as i64) - (properties.builder_cost as i64) >= i32::MIN as i64 && (self.resource as i64) - (
        properties.builder_cost as i64) <= i32::MAX as i64
    }

    /// The score of the state, `resource + population_provide - tick + builders`, when it fits
    /// an `i32`.
    pub(crate) fn score(&self) -> (r: Option<i32>)
        ensures
            r matches Some(x) ==> x == self@.resource + self@.population_provide - self@.tick + self@.builders.len(),
            r is None ==> !in_i32(self@.resource + self@.population_provide - self@.tick + self@.builders.len()),
    {
        let total = (self.resource as i128) + (self.population_provide as i128) - (self.tick as i128) + (self.builders.len() as i128);
        if total < i32::MIN as i128 || total > i32::MAX as i128 {
            None
        } else {
            Some(total as i32)
        }
    }

    /// Gives a builder a task; a builder that changes task first walks `transfer_ticks` ticks.
    pub fn assign(&mut self, builder_index: usize, task: BuildTask, properties: &BuildProperties)
        requires
            builder_index < old(self)@.builders.len(),
        ensures
            final(self)@ == assigned(properties, old(self)@, builder_index as int, task),
            ids_fresh(final(self)@),
    {
        proof {
            use_type_invariant(&*self);
        }
        if self.builders[builder_index].task == task {
            return;
        }
        let mut builders: Vec<Builder> = Vec::new();
        std::mem::swap(&mut builders, &mut self.builders);
        builders.set(builder_index, Builder { task, ticks_to_start: properties.transfer_ticks });
        self.builders = builders;
    }

    /// Pays the start cost of a building, opens its construction and sends a builder to it.
    pub fn build(&mut self, builder_index: usize, building: Building, properties: &BuildProperties)
        requires
            spec_building_index(building) < properties.start_costs.len(),
            spec_building_index(building) < properties.construction_costs.len(),
            builder_index < old(self)@.builders.len(),
            in_i32(old(self)@.resource - properties.start_costs@[spec_building_index(building)]),
            old(self)@.next_building_id < u32::MAX,
        ensures
            final(self)@ == built(properties, old(self)@, builder_index as int, building),
            ids_fresh(final(self)@),
            forall|k: int|
                0 <= k < old(self)@.constructions.len() ==> #[trigger] old(self)@.constructions[k].id
                    != old(self)@.next_building_id,
    {
        proof {
            use_type_invariant(&*self);
        }
        let start_cost = properties.start_costs[building.index()];
        self.resource = self.resource - start_cost;
        let id = self.next_building_id;
        self.next_building_id = self.next_building_id + 1;
        let mut constructions: Vec<Construction> = Vec::new();
        std::mem::swap(&mut constructions, &mut self.constructions);
        constructions.push(
            Construction { id, building, need_resource: properties.construction_costs[building.index()] },
        );
        self.constructions = constructions;
        self.assign(builder_index, BuildTask::Build(id), properties);
    }

    /// Pays for a new idle builder.
    pub fn buy_builder(&mut self, properties: &BuildProperties)
        requires
            in_i32(old(self)@.resource - properties.builder_cost),
        ensures
            final(self)@ == bought(properties, old(self)@),
            ids_fresh(final(self)@),
    {
        proof {
            use_type_invariant(&*self);
        }
        self.resource = self.resource - properties.builder_cost;
        let mut builders: Vec<Builder> = Vec::new();
        std::mem::swap(&mut builders, &mut self.builders);
        builders.push(Builder { task: BuildTask::Idle, ticks_to_start: 0 });
        self.builders = builders;
    }
}

proof fn lemma_first_with_id(cs: Seq<Construction>, id: u32, from: int, j: int)
    requires
        0 <= from <= j <= cs.len(),
        forall|k: int| from <= k < j ==> #[trigger] cs[k].id != id,
        j == cs.len() || cs[j].id == id,
    ensures
        first_with_id(cs, id, from) == j,
    decreases j - from,
{
    if from < j {
        lemma_first_with_id(cs, id, from + 1, j);
    }
}

impl BuildSimulator {
    /// Plays out one tick: each builder in turn walks, harvests or spends on its construction;
    /// finished constructions become buildings and provide population; builders of finished
    /// constructions go idle.
    #[verifier::rlimit(60)]
    pub fn simulate(&mut self, properties: &BuildProperties)
        requires
            simulate_fits(properties, old(self)@),
        ensures
            final(self)@ == simulated(properties, old(self)@),
            ids_fresh(final(self)@),
    {
        proof {
            use_type_invariant(&*self);
        }
        let mut builders: Vec<Builder> = Vec::new();
        std::mem::swap(&mut builders, &mut self.builders);
        let mut constructions: Vec<Construction> = Vec::new();
        std::mem::swap(&mut constructions, &mut self.constructions);
        let mut buildings: Vec<usize> = Vec::new();
        std::mem::swap(&mut buildings, &mut self.buildings);
        let mut resource = self.resource;
        let mut population = self.population_provide;
        let ghost b0 = builders@;
        let ghost r0 = resource as int;
        let ghost cs0 = constructions@;
        let p = properties;
        let mut i: usize = 0;
        while i < builders.len()
            invariant
                simulate_fits(p, old(self)@),
                b0 == old(self)@.builders,
                r0 == old(self)@.resource,
                cs0 == old(self)@.constructions,
                self.tick == old(self).tick,
                population == old(self).population_provide,
                buildings@ == old(self)@.buildings,
                self.next_building_id == old(self).next_building_id,
                i <= builders.len(),
                builders@.len() == b0.len(),
                forall|k: int| 0 <= k < i ==> #[trigger] builders@[k] == countdown(b0[k]),
                forall|k: int| i <= k < b0.len() ==> #[trigger] builders@[k] == b0[k],
                (resource as int, constructions@) == apply_builders(p, b0.take(i as int), r0, cs0),
            decreases b0.len() - i,
        {
            proof {
                assert(b0.take(i + 1).drop_last() =~= b0.take(i as int));
                assert(b0.take(i + 1).last() == b0[i as int]);
                lemma_builders_fit_prefix(p, b0, r0, cs0, i + 1);
                lemma_apply_builders_keeps_ids(p, b0.take(i as int), r0, cs0);
            }
            let b = builders[i];
            if b.ticks_to_start > 0 {
                builders[i] = Builder { task: b.task, ticks_to_start: b.ticks_to_start - 1 };
            } else {
                match b.task {
                    BuildTask::Harvest => {
                        resource = resource + p.harvest_rate;
                    },
                    BuildTask::Build(id) => {
                        let mut j: usize = 0;
                        while j < constructions.len() && constructions[j].id != id
                            invariant
                                j <= constructions.len(),
                                forall|k: int| 0 <= k < j ==> #[trigger] constructions@[k].id != id,
                            decreases constructions.len() - j,
                        {
                            j = j + 1;
                        }
                        proof {
                            lemma_first_with_id(constructions@, id, 0, j as int);
                        }
                        if j < constructions.len() {
                            let c = constructions[j];
                            let mut spend = p.construct_rate;
                            if resource < spend {
                                spend = resource;
                            }
                            if c.need_resource < spend {
                                spend = c.need_resource;
                            }
                            constructions[j] = Construction {
                                id: c.id,
                                building: c.building,
                                need_resource: c.need_resource - spend,
                            };
                            resource = resource - spend;
                        }
                    },
                    BuildTask::Idle => {},
                }
            }
            i = i + 1;
        }
        assert(b0.take(b0.len() as int) =~= b0);
        let ghost cs1 = constructions@;
        proof {
            lemma_apply_builders_keeps_ids(p, b0, r0, cs0);
        }
        let mut k: usize = 0;
        while k < constructions.len()
            invariant
                simulate_fits(p, old(self)@),
                cs1 == constructions@,
                cs1.len() == cs0.len(),
                cs0 == old(self)@.constructions,
                k <= cs1.len(),
                buildings@.len() == 2,
                population == old(self).population_provide + finished_population(p, cs1.take(k as int)),
                buildings@[0] == old(self)@.buildings[0] + finished_count(cs1.take(k as int), Building::House),
                buildings@[1] == old(self)@.buildings[1] + finished_count(cs1.take(k as int), Building::RangedBase),
                self.tick == old(self).tick,
                builders@.len() == b0.len(),
                forall|k: int| 0 <= k < b0.len() ==> #[trigger] builders@[k] == countdown(b0[k]),
                b0 == old(self)@.builders,
                self.next_building_id == old(self).next_building_id,
                (resource as int, cs1) == apply_builders(p, b0, r0, cs0),
                r0 == old(self)@.resource,
            decreases cs1.len() - k,
        {
            proof {
                assert(cs1.take(k + 1).drop_last() =~= cs1.take(k as int));
                assert(cs1.take(k + 1).last() == cs1[k as int]);
                lemma_population_fits_prefix(p, old(self)@.population_provide, cs1, k + 1);
                lemma_finished_count_prefix(cs1, Building::House, k + 1);
                lemma_finished_count_prefix(cs1, Building::RangedBase, k + 1);
                lemma_finished_count_prefix(cs1, Building::House, k as int);
                lemma_finished_count_prefix(cs1, Building::RangedBase, k as int);
            }
            let c = constructions[k];
            if c.need_resource == 0 {
                let index = c.building.index();
                population = population + p.population_provide[index];
                buildings[index] = buildings[index] + 1;
            }
            k = k + 1;
        }
        assert(cs1.take(cs1.len() as int) =~= cs1);
        let mut left: Vec<Construction> = Vec::new();
        let mut k: usize = 0;
        while k < constructions.len()
            invariant
                cs1 == constructions@,
                k <= cs1.len(),
                left@ == unfinished(cs1.take(k as int)),
                self.tick == old(self).tick,
                builders@.len() == b0.len(),
                forall|k: int| 0 <= k < b0.len() ==> #[trigger] builders@[k] == countdown(b0[k]),
                b0 == old(self)@.builders,
                self.next_building_id == old(self).next_building_id,
                (resource as int, cs1) == apply_builders(p, b0, r0, cs0),
                r0 == old(self)@.resource,
                cs0 == old(self)@.constructions,
                buildings@.len() == 2,
                population == old(self).population_provide + finished_population(p, cs1),
                buildings@[0] == old(self)@.buildings[0] + finished_count(cs1, Building::House),
                buildings@[1] == old(self)@.buildings[1] + finished_count(cs1, Building::RangedBase),
                old(self)@.tick < i32::MAX,
            decreases cs1.len() - k,
        {
            assert(cs1.take(k + 1).drop_last() =~= cs1.take(k as int));
            if constructions[k].need_resource > 0 {
                left.push(constructions[k]);
            }
            k = k + 1;
        }
        assert(cs1.take(cs1.len() as int) =~= cs1);
        constructions = left;
        let ghost left = constructions@;
        let mut i: usize = 0;
        while i < builders.len()
            invariant
                left == constructions@,
                i <= builders.len(),
                builders@.len() == b0.len(),
                forall|k: int| 0 <= k < i ==> #[trigger] builders@[k] == unassign(countdown(b0[k]), left),
                forall|k: int| i <= k < b0.len() ==> #[trigger] builders@[k] == countdown(b0[k]),
                self.tick == old(self).tick,
                b0 == old(self)@.builders,
                self.next_building_id == old(self).next_building_id,
                (resource as int, cs1) == apply_builders(p, b0, r0, cs0),
                r0 == old(self)@.resource,
                cs0 == old(self)@.constructions,
                left == unfinished(cs1),
                buildings@.len() == 2,
                population == old(self).population_provide + finished_population(p, cs1),
                buildings@[0] == old(self)@.buildings[0] + finished_count(cs1, Building::House),
                buildings@[1] == old(self)@.buildings[1] + finished_count(cs1, Building::RangedBase),
                old(self)@.tick < i32::MAX,
            decreases b0.len() - i,
        {
            let b = builders[i];
            if let BuildTask::Build(id) = b.task {
                let mut found = false;
                let mut k: usize = 0;
                while k < constructions.len()
                    invariant
                        k <= constructions.len(),
                        found == exists|j: int| 0 <= j < k && constructions@[j].id == id,
                    decreases constructions.len() - k,
                {
                    if constructions[k].id == id {
                        found = true;
                    }
                    k = k + 1;
                }
                if !found {
                    builders[i] = Builder { task: BuildTask::Idle, ticks_to_start: b.ticks_to_start };
                }
            }
            i = i + 1;
        }
        proof {
            lemma_apply_builders_keeps_ids(p, b0, r0, cs0);
            assert forall|k: int| 0 <= k < cs1.len() implies #[trigger] cs1[k].id < self.next_building_id by {
                assert(cs1[k].id == cs0[k].id);
            }
            lemma_unfinished_ids(cs1, self.next_building_id as int);
        }
        self.builders = builders;
        self.constructions = constructions;
        self.buildings = buildings;
        self.resource = resource;
        self.population_provide = population;
        self.tick = self.tick + 1;
        proof {
            assert(builders@ =~= b0.map_values(|b: Builder| unassign(countdown(b), left)));
            assert(self@.buildings =~= simulated(p, old(self)@).buildings);
        }
    }
}
} // verus!
