use vstd::prelude::*;
use crate::build_simulator::{assigned, bought, built, simulate_fits, simulated, spec_building_index, BuildProperties, BuildSimulator, BuildState, BuildTask, Builder, Building, Construction};
use crate::entity_type::{EntityProperties, ENTITY_TYPES_COUNT};
use crate::search::{best_entry, lemma_queue_push, lemma_queue_remove, queue_ok, queued};
use crate::vec2::{abs_int, in_i32};

verus! {

/// A step of a build plan.
#[derive(Clone, Copy, Debug, PartialEq, Eq)]
pub enum BuildAction {
    Assign { builder_index: usize, task: BuildTask },
    BuyBuilder,
    Build { builder_index: usize, building: Building },
    Simulate { ticks: i32 },
}

/// The steps that lead to the best state a build search found, and that state's score.
#[derive(Clone, Debug)]
pub struct BuildPlan {
    pub transitions: Vec<BuildAction>,
    pub score: i32,
}

impl Default for BuildPlan {
    fn default() -> (r: Self)
        ensures
            r.transitions@ == Seq::<BuildAction>::empty(),
            r.score == 0,
    {
        BuildPlan { transitions: Vec::new(), score: 0 }
    }
}

/// The state after `ticks` ticks.
pub open spec fn simulated_for(p: &BuildProperties, s: BuildState, ticks: int) -> BuildState
    decreases ticks,
{
    if ticks <= 0 {
        s
    } else {
        simulated(p, simulated_for(p, s, ticks - 1))
    }
}

/// The state after one step of a plan.
pub open spec fn action_effect(p: &BuildProperties, s: BuildState, a: BuildAction) -> BuildState {
    match a {
        BuildAction::BuyBuilder => bought(p, s),
        BuildAction::Build { builder_index, building } => built(p, s, builder_index as int, building),
        BuildAction::Assign { builder_index, task } => assigned(p, s, builder_index as int, task),
        BuildAction::Simulate { ticks } => simulated_for(p, s, ticks as int),
    }
}

/// The state after the steps of a plan, one after the other.
pub open spec fn replay(p: &BuildProperties, s: BuildState, actions: Seq<BuildAction>) -> BuildState
    decreases actions.len(),
{
    if actions.len() == 0 {
        s
    } else {
        action_effect(p, replay(p, s, actions.drop_last()), actions.last())
    }
}

/// A plan's steps with every run of simulation steps made one step of all their ticks.
pub open spec fn merged(actions: Seq<BuildAction>) -> Seq<BuildAction>
    decreases actions.len(),
{
    if actions.len() == 0 {
        actions
    } else {
        let m = merged(actions.drop_last());
        match actions.last() {
            BuildAction::Simulate { ticks } => if m.len() > 0 && m.last() is Simulate {
                m.drop_last().push(BuildAction::Simulate { ticks: (m.last()->ticks + ticks) as i32 })
            } else {
                m.push(actions.last())
            },
            _ => m.push(actions.last()),
        }
    }
}

/// How good a state of the economy is: resource and population count for it, ticks spent
/// against it, and each builder counts one.
pub open spec fn spec_score(s: BuildState) -> int {
    s.resource + s.population_provide - s.tick + s.builders.len()
}

/// `p` is the economy `BuildProperties::new` makes of `entity_properties`, with builders
/// walking `transfer_ticks` ticks to a new task.
pub open spec fn economy_of(p: &BuildProperties, transfer_ticks: i32, entity_properties: Seq<EntityProperties>) -> bool {
    &&& p.wf()
    &&& p.harvest_rate == entity_properties[8].resource_per_health * entity_properties[3].attack.unwrap().damage
    &&& p.construct_rate == entity_properties[3].repair.unwrap().power
    &&& p.transfer_ticks == transfer_ticks
    &&& p.builder_cost == entity_properties[3].initial_cost
    &&& p.start_costs@ == seq![entity_properties[1].initial_cost, entity_properties[6].initial_cost]
    &&& p.construction_costs@ == seq![entity_properties[1].max_health, entity_properties[6].max_health]
    &&& p.population_provide@ == seq![entity_properties[1].population_provide, entity_properties[6].population_provide]
}


proof fn lemma_simulated_for_add(p: &BuildProperties, s: BuildState, a: int, b: int)
    requires
        a >= 0,
        b >= 0,
    ensures
        simulated_for(p, simulated_for(p, s, a), b) == simulated_for(p, s, a + b),
    decreases b,
{
    if b > 0 {
        lemma_simulated_for_add(p, s, a, b - 1);
    }
}

/// Every simulation step of `actions` plays between 0 and `max` ticks.
pub open spec fn ticks_within(actions: Seq<BuildAction>, max: int) -> bool {
    forall|k: int|
        0 <= k < actions.len() ==> ((#[trigger] actions[k]) matches BuildAction::Simulate { ticks } ==> 0 <= ticks <= max)
}

/// Making each run of simulation steps one step plays the same: the merged steps give the same
/// state, and a merged step plays at most five ticks per step merged.
proof fn lemma_merged_replays(p: &BuildProperties, s: BuildState, actions: Seq<BuildAction>)
    requires
        ticks_within(actions, 5),
        actions.len() * 5 <= i32::MAX,
    ensures
        replay(p, s, merged(actions)) == replay(p, s, actions),
        ticks_within(merged(actions), (actions.len() * 5) as int),
        merged(actions).len() <= actions.len(),
    decreases actions.len(),
{
    if actions.len() > 0 {
        let rest = actions.drop_last();
        assert(ticks_within(rest, 5)) by {
            assert forall|k: int| 0 <= k < rest.len() implies ((#[trigger] rest[k]) matches BuildAction::Simulate { ticks } ==> 0 <= ticks <= 5) by {
                assert(rest[k] == actions[k]);
            }
        }
        lemma_merged_replays(p, s, rest);
        let m = merged(rest);
        let last = actions.last();
        assert(ticks_within(m, (actions.len() * 5) as int)) by {
            assert forall|k: int| 0 <= k < m.len() implies ((#[trigger] m[k]) matches BuildAction::Simulate { ticks } ==> 0 <= ticks <= actions.len() * 5) by {
                assert(ticks_within(m, (rest.len() * 5) as int));
            }
        }
        assert(actions[actions.len() - 1] == last);
        match last {
            BuildAction::Simulate { ticks } => {
                if m.len() > 0 && m.last() is Simulate {
                    let u = m.last()->ticks;
                    assert(m[m.len() - 1] == m.last());
                    assert(0 <= u <= rest.len() * 5);
                    let merged_last = BuildAction::Simulate { ticks: (u + ticks) as i32 };
                    let r = m.drop_last().push(merged_last);
                    assert(r.drop_last() =~= m.drop_last());
                    assert(m.drop_last().push(m.last()) =~= m);
                    lemma_simulated_for_add(p, replay(p, s, m.drop_last()), u as int, ticks as int);
                    assert(replay(p, s, m) == action_effect(p, replay(p, s, m.drop_last()), m.last()));
                    assert forall|k: int| 0 <= k < r.len() implies ((#[trigger] r[k]) matches BuildAction::Simulate { ticks } ==> 0 <= ticks <= actions.len() * 5) by {
                        if k < r.len() - 1 {
                            assert(r[k] == m[k]);
                        }
                    }
                } else {
                    let r = m.push(last);
                    assert(r.drop_last() =~= m);
                    assert forall|k: int| 0 <= k < r.len() implies ((#[trigger] r[k]) matches BuildAction::Simulate { ticks } ==> 0 <= ticks <= actions.len() * 5) by {
                        if k < r.len() - 1 {
                            assert(r[k] == m[k]);
                        }
                    }
                }
            },
            _ => {
                let r = m.push(last);
                assert(r.drop_last() =~= m);
                assert forall|k: int| 0 <= k < r.len() implies ((#[trigger] r[k]) matches BuildAction::Simulate { ticks } ==> 0 <= ticks <= actions.len() * 5) by {
                    if k < r.len() - 1 {
                        assert(r[k] == m[k]);
                    }
                }
            },
        }
    }
}

/// The economy has one start cost, construction cost and population per kind of building.
fn properties_wf(properties: &BuildProperties) -> (r: bool)
    ensures
        r == properties.wf(),
{
    properties.start_costs.len() == 2 && properties.construction_costs.len() == 2 && properties.population_provide.len() == 2
}


/// Where the first builder with task `task` stands among `builders`, or -1.
pub open spec fn first_task(builders: Seq<Builder>, task: BuildTask) -> int
    decreases builders.len(),
{
    if builders.len() == 0 {
        -1
    } else {
        let k = first_task(builders.drop_last(), task);
        if k >= 0 {
            k
        } else if builders.last().task == task {
            builders.len() - 1
        } else {
            -1
        }
    }
}

/// The step buying a builder, when its cost can be paid and there is population for it.
pub open spec fn buy_offer(p: &BuildProperties, s: BuildState, population_use: int) -> Seq<BuildAction> {
    if p.builder_cost <= s.resource && (s.builders.len() as i32) + population_use <= s.population_provide {
        seq![BuildAction::BuyBuilder]
    } else {
        Seq::empty()
    }
}

/// The step starting `building`, when its start cost can be paid, by the first idle builder or
/// else the first harvesting one.
pub open spec fn build_offer(p: &BuildProperties, s: BuildState, building: Building) -> Seq<BuildAction> {
    let idle = first_task(s.builders, BuildTask::Idle);
    let harvester = first_task(s.builders, BuildTask::Harvest);
    if p.start_costs@[spec_building_index(building)] > s.resource {
        Seq::empty()
    } else if idle >= 0 {
        seq![BuildAction::Build { builder_index: idle as usize, building }]
    } else if harvester >= 0 {
        seq![BuildAction::Build { builder_index: harvester as usize, building }]
    } else {
        Seq::empty()
    }
}

/// The step sending the first idle builder to harvest, when there is one.
pub open spec fn harvest_offer(s: BuildState) -> Seq<BuildAction> {
    let idle = first_task(s.builders, BuildTask::Idle);
    if idle >= 0 {
        seq![BuildAction::Assign { builder_index: idle as usize, task: BuildTask::Harvest }]
    } else {
        Seq::empty()
    }
}

/// Where the first builder with task `task` stands among `builders` (`first_task`).
fn find_task(builders: &Vec<Builder>, task: BuildTask) -> (r: Option<usize>)
    ensures
        match r {
            Some(i) => i == first_task(builders@, task) && i < builders.len(),
            None => first_task(builders@, task) == -1,
        },
{
    let mut i: usize = 0;
    while i < builders.len()
        invariant
            i <= builders.len(),
            first_task(builders@.take(i as int), task) == -1,
        decreases builders.len() - i,
    {
        proof {
            assert(builders@.take(i + 1).drop_last() =~= builders@.take(i as int));
            assert(builders@.take(i + 1).last() == builders@[i as int]);
        }
        if builders[i].task == task {
            proof {
                lemma_first_task_prefix(builders@, i + 1, task);
            }
            return Some(i);
        }
        i = i + 1;
    }
    proof {
        assert(builders@.take(builders.len() as int) =~= builders@);
    }
    None
}

/// A builder found among the first `n` is the first of all of them.
proof fn lemma_first_task_prefix(builders: Seq<Builder>, n: int, task: BuildTask)
    requires
        0 <= n <= builders.len(),
        first_task(builders.take(n), task) >= 0,
    ensures
        first_task(builders, task) == first_task(builders.take(n), task),
    decreases builders.len() - n,
{
    if n < builders.len() {
        assert(builders.take(n + 1).drop_last() =~= builders.take(n));
        lemma_first_task_prefix(builders, n + 1, task);
    } else {
        assert(builders.take(n) =~= builders);
    }
}

/// Where the first item of `s` that `f` accepts stands, or -1.
pub open spec fn first_index<A>(s: Seq<A>, f: spec_fn(A) -> bool) -> int
    decreases s.len(),
{
    if s.len() == 0 {
        -1
    } else {
        let k = first_index(s.drop_last(), f);
        if k >= 0 {
            k
        } else if f(s.last()) {
            s.len() - 1
        } else {
            -1
        }
    }
}

/// An item found among the first `n` is the first of all of them.
proof fn lemma_first_index_prefix<A>(s: Seq<A>, n: int, f: spec_fn(A) -> bool)
    requires
        0 <= n <= s.len(),
        first_index(s.take(n), f) >= 0,
    ensures
        first_index(s, f) == first_index(s.take(n), f),
    decreases s.len() - n,
{
    if n < s.len() {
        assert(s.take(n + 1).drop_last() =~= s.take(n));
        lemma_first_index_prefix(s, n + 1, f);
    } else {
        assert(s.take(n) =~= s);
    }
}

/// How many of `s` `f` accepts.
pub open spec fn count_of<A>(s: Seq<A>, f: spec_fn(A) -> bool) -> nat
    decreases s.len(),
{
    if s.len() == 0 {
        0
    } else {
        count_of(s.drop_last(), f) + if f(s.last()) {
            1nat
        } else {
            0nat
        }
    }
}

/// A count never exceeds the length.
proof fn lemma_count_of_bound<A>(s: Seq<A>, f: spec_fn(A) -> bool)
    ensures
        count_of(s, f) <= s.len(),
    decreases s.len(),
{
    if s.len() > 0 {
        lemma_count_of_bound(s.drop_last(), f);
    }
}

/// The resource the constructions still need, in all.
pub open spec fn need_total(cs: Seq<Construction>) -> int
    decreases cs.len(),
{
    if cs.len() == 0 {
        0
    } else {
        need_total(cs.drop_last()) + cs.last().need_resource
    }
}

/// Adding up what the constructions need, one after the other, stays within `i32`.
pub open spec fn need_sums_fit(cs: Seq<Construction>) -> bool {
    forall|k: int| 0 <= k <= cs.len() ==> in_i32(#[trigger] need_total(cs.take(k)))
}

/// Builders that harvest.
pub open spec fn harvesting() -> spec_fn(Builder) -> bool {
    |b: Builder| b.task == BuildTask::Harvest
}

/// Builders that build something.
pub open spec fn building_any() -> spec_fn(Builder) -> bool {
    |b: Builder| b.task is Build
}

/// Builders that build construction `id`.
pub open spec fn building_id(id: u32) -> spec_fn(Builder) -> bool {
    |b: Builder| b.task == BuildTask::Build(id)
}

/// Builders that can be sent to a construction: idle, or harvesting and already at work.
pub open spec fn sendable() -> spec_fn(Builder) -> bool {
    |b: Builder| b.task == BuildTask::Idle || (b.task == BuildTask::Harvest && b.ticks_to_start == 0)
}

/// Constructions with fewer builders of `builders` assigned than `places` allow for their
/// building.
pub open spec fn with_free_place(builders: Seq<Builder>, places: Seq<i32>) -> spec_fn(Construction) -> bool {
    |c: Construction| (count_of(builders, building_id(c.id)) as i32) < places[spec_building_index(c.building)]
}

/// `a` divided by `b` with the quotient rounded toward zero, as Rust's `/` on signed integers.
pub open spec fn quotient_toward_zero(a: int, b: int) -> int {
    let q = abs_int(a) / abs_int(b);
    if (a < 0) == (b < 0) {
        q
    } else {
        -q
    }
}

/// The harvest left after one harvester leaves keeps up with one more builder until the
/// constructions are done: the resource now and that harvest over the ticks the constructions
/// take cover what the builders then spend.
pub open spec fn keeps_up(p: &BuildProperties, s: BuildState) -> bool {
    let harvesters = count_of(s.builders, harvesting());
    let building = count_of(s.builders, building_any());
    let ticks = quotient_toward_zero(need_total(s.constructions), p.construct_rate as int) + 1;
    let income = ((harvesters - 1) as i32) * p.harvest_rate;
    let outcome = ((building + 1) as i32) * p.construct_rate;
    s.resource + income * ticks >= outcome * ticks
}

/// The step sending the first builder that can be sent to the first construction with a free
/// place, when something is under construction, there is resource, someone harvests, what the
/// constructions need adds up within `i32` and can be divided by the construction rate, and
/// the harvest keeps up (`keeps_up`).
pub open spec fn assign_offer(p: &BuildProperties, s: BuildState, places: Seq<i32>) -> Seq<BuildAction> {
    let need = need_total(s.constructions);
    let b = first_index(s.builders, sendable());
    let c = first_index(s.constructions, with_free_place(s.builders, places));
    if s.constructions.len() == 0 || s.resource == 0 || count_of(s.builders, harvesting()) == 0 {
        Seq::empty()
    } else if !need_sums_fit(s.constructions) || p.construct_rate == 0 || (need == i32::MIN && p.construct_rate == -1) {
        Seq::empty()
    } else if !keeps_up(p, s) || b < 0 || c < 0 {
        Seq::empty()
    } else {
        seq![BuildAction::Assign { builder_index: b as usize, task: BuildTask::Build(s.constructions[c].id) }]
    }
}

/// The steps a build search offers from state `s`: buying a builder; starting a ranged base
/// when none is built or under construction and it can be paid, else a house, unless a ranged
/// base is under construction; sending an idle builder to harvest; sending a builder to a
/// construction; and playing five ticks.
pub open spec fn offered(p: &BuildProperties, s: BuildState, population_use: int, places: Seq<i32>) -> Seq<BuildAction> {
    let no_ranged_base = forall|k: int| 0 <= k < s.constructions.len() ==> #[trigger] s.constructions[k].building != Building::RangedBase;
    let build = if no_ranged_base {
        if s.buildings.len() > 1 && s.buildings[1] == 0 && p.start_costs@[1] <= s.resource {
            build_offer(p, s, Building::RangedBase)
        } else {
            build_offer(p, s, Building::House)
        }
    } else {
        Seq::empty()
    };
    buy_offer(p, s, population_use) + build + harvest_offer(s) + assign_offer(p, s, places) + seq![
        BuildAction::Simulate { ticks: 5 },
    ]
}

/// Step `a` can be played from `s` with every value in range: the builder it names exists, what
/// it costs leaves the resource within `i32`, a new building gets an id, and every tick played
/// fits (`simulate_fits`).
pub open spec fn playable(p: &BuildProperties, s: BuildState, a: BuildAction) -> bool {
    match a {
        BuildAction::BuyBuilder => in_i32(s.resource - p.builder_cost),
        BuildAction::Build { builder_index, building } => {
            &&& p.wf()
            &&& builder_index < s.builders.len()
            &&& in_i32(s.resource - p.start_costs@[spec_building_index(building)])
            &&& s.next_building_id < u32::MAX
        },
        BuildAction::Assign { builder_index, .. } => builder_index < s.builders.len(),
        BuildAction::Simulate { ticks } => forall|k: int| 0 <= k < ticks ==> simulate_fits(p, #[trigger] simulated_for(p, s, k)),
    }
}

/// How many builders may work on a construction of each kind of building: four per cell of a
/// side of a house and of a ranged base.
pub open spec fn places_of(entity_properties: Seq<EntityProperties>) -> Seq<i32> {
    seq![(4 * entity_properties[1].size) as i32, (4 * entity_properties[6].size) as i32]
}

/// A state of a build search: the simulation, how many steps led there, and the step that did.
struct PlanState {
    depth: usize,
    simulator: BuildSimulator,
    transition: Option<usize>,
}

/// A step of a build search: the state it was taken from and what was done.
struct PlanTransition {
    state_index: usize,
    action: BuildAction,
}

/// A best-first search over the plays of the build simulator for the best state that a test
/// tells final.
pub struct BuildPlanner {
    max_depth: usize,
    states: Vec<PlanState>,
    transitions: Vec<PlanTransition>,
    optimal_final_state_index: Option<usize>,
    properties: Option<BuildProperties>,
    finals: Ghost<Seq<bool>>,
}

impl BuildPlanner {
    pub closed spec fn spec_max_depth(self) -> int {
        self.max_depth as int
    }

    /// How many states the last search kept.
    pub closed spec fn states_len(self) -> int {
        self.states.len() as int
    }

    /// The simulation of state `i` of the last search.
    pub closed spec fn state_simulator(self, i: int) -> BuildSimulator {
        self.states@[i].simulator
    }

    /// Whether the test of the last search told state `i` final.
    pub closed spec fn is_final_state(self, i: int) -> bool {
        self.finals@[i]
    }

    /// The economy the last search played.
    pub closed spec fn economy(self) -> BuildProperties {
        self.properties->0
    }

    /// The best final state the last search found.
    pub closed spec fn optimal(self) -> Option<usize> {
        self.optimal_final_state_index
    }

    /// The score by which the search ranks state `i`: its `spec_score`, except the first,
    /// which starts at 0.
    pub closed spec fn key(self, i: int) -> int {
        if i == 0 {
            0
        } else {
            spec_score(self.states@[i].simulator@)
        }
    }

    /// The steps that lead from the first state to state `i`.
    pub closed spec fn chain(self, i: int) -> Seq<BuildAction>
        decreases i,
    {
        if i <= 0 || i > self.transitions.len() {
            Seq::empty()
        } else {
            let t = self.transitions@[i - 1];
            if t.state_index < i {
                self.chain(t.state_index as int).push(t.action)
            } else {
                Seq::empty()
            }
        }
    }

    /// The states and steps of the last search form a tree rooted at the first state, and each
    /// state is what its step makes, in the economy `p`, of the state it was taken from.
    pub closed spec fn tree_ok(self, p: &BuildProperties) -> bool {
        &&& self.states.len() >= 1
        &&& self.transitions.len() + 1 == self.states.len()
        &&& self.finals@.len() == self.states.len()
        &&& self.states@[0].transition is None
        &&& self.states@[0].depth == 0
        &&& forall|i: int|
            1 <= i < self.states.len() ==> {
                let t = #[trigger] self.transitions@[i - 1];
                &&& self.states@[i].transition == Some((i - 1) as usize)
                &&& t.state_index < i
                &&& self.states@[i].simulator@ == action_effect(p, self.states@[t.state_index as int].simulator@, t.action)
                &&& self.states@[i].depth == self.states@[t.state_index as int].depth + 1
                &&& (t.action matches BuildAction::Simulate { ticks } ==> ticks == 5)
            }
    }

    /// The last search kept its economy and a tree of states played in it.
    pub closed spec fn search_ok(self) -> bool {
        self.properties is Some && self.tree_ok(&self.properties->0)
    }

    /// The steps that lead to state `i` play from the first state to state `i`, one step per
    /// level of depth, each simulation step of five ticks.
    proof fn lemma_chain_replays(self, p: &BuildProperties, i: int)
        requires
            self.tree_ok(p),
            0 <= i < self.states_len(),
        ensures
            replay(p, self.state_simulator(0)@, self.chain(i)) == self.state_simulator(i)@,
            self.chain(i).len() == self.states@[i].depth,
            ticks_within(self.chain(i), 5),
        decreases i,
    {
        if i > 0 {
            let t = self.transitions@[i - 1];
            let parent = t.state_index as int;
            self.lemma_chain_replays(p, parent);
            let c = self.chain(i);
            assert(c == self.chain(parent).push(t.action));
            assert(c.drop_last() =~= self.chain(parent));
            assert forall|k: int| 0 <= k < c.len() implies ((#[trigger] c[k]) matches BuildAction::Simulate { ticks } ==> 0 <= ticks <= 5) by {
                if k < c.len() - 1 {
                    assert(c[k] == self.chain(parent)[k]);
                }
            }
        }
    }

    /// Plays `action` on a copy of state `state_index`; a state not seen before joins the
    /// search, reached by that step, and comes back with its score. Nothing is added when the
    /// step cannot be played without overflow, or its state was seen already.
    fn add_transition(&mut self, action: BuildAction, state_index: usize, properties: &BuildProperties) -> (r: Option<(i32, usize)>)
        requires
            old(self).tree_ok(properties),
            state_index < old(self).states.len(),
            action matches BuildAction::Simulate { ticks } ==> ticks == 5,
        ensures
            final(self).tree_ok(properties),
            final(self).max_depth == old(self).max_depth,
            final(self).properties == old(self).properties,
            final(self).optimal_final_state_index == old(self).optimal_final_state_index,
            final(self).states.len() >= old(self).states.len(),
            forall|i: int| 0 <= i < old(self).states.len() ==> #[trigger] final(self).states@[i] == old(self).states@[i],
            forall|i: int| 0 <= i < old(self).finals@.len() ==> #[trigger] final(self).finals@[i] == old(self).finals@[i],
            forall|i: int| 0 <= i < old(self).transitions.len() ==> #[trigger] final(self).transitions@[i] == old(self).transitions@[i],
            match r {
                Some((score, i)) => {
                    &&& i == old(self).states.len()
                    &&& final(self).states.len() == old(self).states.len() + 1
                    &&& score == final(self).key(i as int)
                    &&& final(self).states@[i as int].depth == old(self).states@[state_index as int].depth + 1
                    &&& !final(self).finals@[i as int]
                    &&& final(self).states@[i as int].simulator@ == action_effect(properties, old(self).states@[state_index as int].simulator@, action)
                },
                None => {
                    &&& final(self).states.len() == old(self).states.len()
                    &&& {
                        let effect = action_effect(properties, old(self).states@[state_index as int].simulator@, action);
                        ||| !playable(properties, old(self).states@[state_index as int].simulator@, action)
                        ||| (exists|j: int| 0 <= j < old(self).states.len() && #[trigger] old(self).states@[j].simulator@ == effect)
                        ||| !in_i32(spec_score(effect))
                        ||| old(self).states@[state_index as int].depth == usize::MAX
                    }
                },
            },
    {
        let ghost start = self.states@[state_index as int].simulator@;
        let mut simulator = self.states[state_index].simulator.duplicate();
        match action {
            BuildAction::BuyBuilder => {
                if !simulator.can_buy_builder(properties) {
                    return None;
                }
                simulator.buy_builder(properties);
            },
            BuildAction::Build { builder_index, building } => {
                if !properties_wf(properties) || !simulator.can_build(builder_index, building, properties) {
                    return None;
                }
                simulator.build(builder_index, building, properties);
            },
            BuildAction::Assign { builder_index, task } => {
                if builder_index >= simulator.builders().len() {
                    return None;
                }
                simulator.assign(builder_index, task, properties);
            },
            BuildAction::Simulate { ticks } => {
                let mut k: i32 = 0;
                while k < ticks
                    invariant
                        0 <= k <= ticks,
                        simulator@ == simulated_for(properties, start, k as int),
                        *self == *old(self),
                        old(self).tree_ok(properties),
                        state_index < old(self).states.len(),
                        start == old(self).states@[state_index as int].simulator@,
                        action == (BuildAction::Simulate { ticks }),
                    decreases ticks - k,
                {
                    if !simulator.can_simulate(properties) {
                        proof {
                            assert(!simulate_fits(properties, simulated_for(properties, start, k as int)));
                            assert(!playable(properties, start, action));
                        }
                        return None;
                    }
                    simulator.simulate(properties);
                    k = k + 1;
                }
            },
        }
        assert(simulator@ == action_effect(properties, start, action));
        let mut j: usize = 0;
        while j < self.states.len()
            invariant
                j <= self.states.len(),
                *self == *old(self),
                old(self).tree_ok(properties),
                state_index < old(self).states.len(),
                start == old(self).states@[state_index as int].simulator@,
                simulator@ == action_effect(properties, start, action),
            decreases self.states.len() - j,
        {
            if self.states[j].simulator.same_as(&simulator) {
                proof {
                    assert(old(self).states@[j as int].simulator@ == action_effect(properties, start, action));
                }
                return None;
            }
            j = j + 1;
        }
        let score = match simulator.score() {
            Some(score) => score,
            None => {
                return None;
            },
        };
        let ghost old_self = *self;
        let transition_index = self.transitions.len();
        let new_state_index = self.states.len();
        let depth = self.states[state_index].depth;
        if depth == usize::MAX {
            return None;
        }
        self.transitions.push(PlanTransition { state_index, action });
        self.states.push(PlanState { depth: depth + 1, simulator, transition: Some(transition_index) });
        proof {
            self.finals@ = self.finals@.push(false);
            assert forall|i: int| 1 <= i < self.states.len() implies {
                let t = #[trigger] self.transitions@[i - 1];
                &&& self.states@[i].transition == Some((i - 1) as usize)
                &&& t.state_index < i
                &&& self.states@[i].simulator@ == action_effect(properties, self.states@[t.state_index as int].simulator@, t.action)
                &&& self.states@[i].depth == self.states@[t.state_index as int].depth + 1
                &&& (t.action matches BuildAction::Simulate { ticks } ==> ticks == 5)
            } by {
                if i < new_state_index {
                    assert(self.transitions@[i - 1] == old_self.transitions@[i - 1]);
                    assert(self.states@[i] == old_self.states@[i]);
                    let t = self.transitions@[i - 1];
                    assert(self.states@[t.state_index as int] == old_self.states@[t.state_index as int]);
                }
            }
        }
        Some((score, new_state_index))
    }

    /// The steps that lead to state `state_index`, each run of simulation steps made one step.
    fn reconstruct_sequence(&self, state_index: usize) -> (r: Vec<BuildAction>)
        requires
            exists|p: BuildProperties| self.tree_ok(&p),
            state_index < self.states.len(),
            self.states@[state_index as int].depth * 5 <= i32::MAX,
        ensures
            r@ == merged(self.chain(state_index as int)),
    {
        let ghost p = choose|p: BuildProperties| self.tree_ok(&p);
        proof {
            self.lemma_chain_replays(&p, state_index as int);
        }
        let ghost chain = self.chain(state_index as int);
        let mut backward: Vec<BuildAction> = Vec::new();
        let mut index = state_index;
        while self.states[index].transition.is_some()
            invariant
                self.tree_ok(&p),
                index < self.states.len(),
                chain == self.chain(state_index as int),
                chain.len() == self.states@[state_index as int].depth,
                self.chain(index as int).len() + backward@.len() == chain.len(),
                chain == self.chain(index as int) + backward@.reverse(),
            decreases index,
        {
            let t = match self.states[index].transition {
                Some(t) => t,
                None => 0,
            };
            let transition = &self.transitions[t];
            proof {
                let c = self.chain(index as int);
                assert(t == index - 1);
                assert(c == self.chain(transition.state_index as int).push(transition.action));
                assert(backward@.push(transition.action).reverse() =~= seq![transition.action] + backward@.reverse());
                assert(c + backward@.reverse() =~= self.chain(transition.state_index as int) + backward@.push(transition.action).reverse());
            }
            backward.push(transition.action);
            index = transition.state_index;
        }
        proof {
            assert(index == 0);
            assert(self.chain(0) =~= Seq::<BuildAction>::empty());
            assert(chain =~= backward@.reverse());
        }
        let mut forward: Vec<BuildAction> = Vec::new();
        let mut k = backward.len();
        while k > 0
            invariant
                k <= backward.len(),
                forward@ == backward@.reverse().take((backward.len() - k) as int),
            decreases k,
        {
            k = k - 1;
            forward.push(backward[k]);
            proof {
                let n = backward.len() as int;
                assert(backward@.reverse().take(n - k) =~= backward@.reverse().take(n - k - 1).push(backward@[k as int]));
            }
        }
        proof {
            assert(backward@.reverse().take(backward.len() as int) =~= chain);
            assert(forward@ == chain);
        }
        let mut result: Vec<BuildAction> = Vec::new();
        let mut i: usize = 0;
        while i < forward.len()
            invariant
                forward@ == chain,
                ticks_within(chain, 5),
                chain.len() * 5 <= i32::MAX,
                i <= forward.len(),
                result@ == merged(chain.take(i as int)),
                ticks_within(result@, (i * 5) as int),
            decreases forward.len() - i,
        {
            let action = forward[i];
            proof {
                assert(chain.take(i + 1).drop_last() =~= chain.take(i as int));
                assert(chain.take(i + 1).last() == action);
                assert(chain[i as int] == action);
            }
            let n = result.len();
            let mut merged_step = false;
            match action {
                BuildAction::Simulate { ticks } => {
                    if n > 0 {
                        match result[n - 1] {
                            BuildAction::Simulate { ticks: previous } => {
                                assert(result@[n - 1] == result@.last());
                                result.set(n - 1, BuildAction::Simulate { ticks: previous + ticks });
                                merged_step = true;
                                proof {
                                    assert(result@ =~= merged(chain.take(i as int)).drop_last().push(
                                        BuildAction::Simulate { ticks: (previous + ticks) as i32 },
                                    ));
                                }
                            },
                            _ => {},
                        }
                    }
                },
                _ => {},
            }
            if !merged_step {
                result.push(action);
            }
            proof {
                let r = result@;
                assert forall|x: int| 0 <= x < r.len() implies ((#[trigger] r[x]) matches BuildAction::Simulate { ticks } ==> 0 <= ticks <= (i + 1) * 5) by {
                    if x < n && !(merged_step && x == n - 1) {
                        assert(r[x] == merged(chain.take(i as int))[x]);
                    }
                }
            }
            i = i + 1;
        }
        proof {
            assert(chain.take(forward.len() as int) =~= chain);
        }
        result
    }

    /// Offers buying a builder when the search may still grow, the builder can be paid for
    /// and there is population for it (`buy_offer`).
    fn try_buy_builder(&self, state_index: usize, properties: &BuildProperties, builder_population_use: i32, max_transitions: usize, actions: &mut Vec<BuildAction>)
        requires
            state_index < self.states.len(),
        ensures
            final(actions)@ == old(actions)@ + if self.transitions.len() < max_transitions {
                buy_offer(properties, self.states@[state_index as int].simulator@, builder_population_use as int)
            } else {
                Seq::empty()
            },
    {
        let ghost start = actions@;
        if self.transitions.len() >= max_transitions {
            assert(actions@ =~= start + Seq::<BuildAction>::empty());
            return;
        }
        let simulator = &self.states[state_index].simulator;
        let builders = simulator.builders().len() as i32;
        if properties.builder_cost <= simulator.resource() && (builders as i64) + (builder_population_use as i64)
            <= simulator.population_provide() as i64 {
            actions.push(BuildAction::BuyBuilder);
        }
        proof {
            assert(actions@ =~= start + buy_offer(properties, self.states@[state_index as int].simulator@, builder_population_use as int));
        }
    }

    /// Offers starting `building` when the search may still grow and its start cost can be
    /// paid, with the first idle builder, or else the first harvesting one (`build_offer`).
    fn try_build(&self, building: Building, state_index: usize, properties: &BuildProperties, max_transitions: usize, actions: &mut Vec<BuildAction>)
        requires
            state_index < self.states.len(),
            properties.wf(),
        ensures
            final(actions)@ == old(actions)@ + if self.transitions.len() < max_transitions {
                build_offer(properties, self.states@[state_index as int].simulator@, building)
            } else {
                Seq::empty()
            },
    {
        let ghost start = actions@;
        if self.transitions.len() >= max_transitions {
            assert(actions@ =~= start + Seq::<BuildAction>::empty());
            return;
        }
        let simulator = &self.states[state_index].simulator;
        let ghost v = simulator@;
        if properties.start_costs[building.index()] > simulator.resource() {
            assert(actions@ =~= start + build_offer(properties, v, building));
            return;
        }
        let builders = simulator.builders();
        let idle = find_task(builders, BuildTask::Idle);
        let builder_index = match idle {
            Some(i) => Some(i),
            None => find_task(builders, BuildTask::Harvest),
        };
        if let Some(builder_index) = builder_index {
            actions.push(BuildAction::Build { builder_index, building });
        }
        proof {
            assert(actions@ =~= start + build_offer(properties, v, building));
        }
    }

    /// Offers sending the first idle builder to harvest, when the search may still grow
    /// (`harvest_offer`).
    fn try_assign_to_harvest(&self, state_index: usize, max_transitions: usize, actions: &mut Vec<BuildAction>)
        requires
            state_index < self.states.len(),
        ensures
            final(actions)@ == old(actions)@ + if self.transitions.len() < max_transitions {
                harvest_offer(self.states@[state_index as int].simulator@)
            } else {
                Seq::empty()
            },
    {
        let ghost start = actions@;
        if self.transitions.len() >= max_transitions {
            assert(actions@ =~= start + Seq::<BuildAction>::empty());
            return;
        }
        let builders = self.states[state_index].simulator.builders();
        if let Some(i) = find_task(builders, BuildTask::Idle) {
            actions.push(BuildAction::Assign { builder_index: i, task: BuildTask::Harvest });
        }
        proof {
            assert(actions@ =~= start + harvest_offer(self.states@[state_index as int].simulator@));
        }
    }

    /// Offers sending a builder, idle or harvesting and already at work, to the first
    /// construction with a free place, when the search may still grow, something is under
    /// construction, and the harvest left after taking one harvester away keeps up with one more
    /// builder until the constructions are done (`assign_offer`).
    fn try_assign_to_build(&self, state_index: usize, construction_places: &Vec<i32>, properties: &BuildProperties, max_transitions: usize, actions: &mut Vec<BuildAction>)
        requires
            state_index < self.states.len(),
            construction_places.len() == 2,
        ensures
            final(actions)@ == old(actions)@ + if self.transitions.len() < max_transitions {
                assign_offer(properties, self.states@[state_index as int].simulator@, construction_places@)
            } else {
                Seq::empty()
            },
    {
        let ghost start = actions@;
        if self.transitions.len() >= max_transitions {
            assert(actions@ =~= start + Seq::<BuildAction>::empty());
            return;
        }
        let simulator = &self.states[state_index].simulator;
        let ghost v = simulator@;
        let ghost offer = assign_offer(properties, v, construction_places@);
        let builders = simulator.builders();
        let constructions = simulator.constructions();
        if constructions.len() == 0 || simulator.resource() == 0 {
            assert(actions@ =~= start + offer);
            return;
        }
        let mut harvesters: usize = 0;
        let mut building: usize = 0;
        let mut i: usize = 0;
        while i < builders.len()
            invariant
                i <= builders.len(),
                harvesters == count_of(builders@.take(i as int), harvesting()),
                building == count_of(builders@.take(i as int), building_any()),
            decreases builders.len() - i,
        {
            proof {
                assert(builders@.take(i + 1).drop_last() =~= builders@.take(i as int));
                assert(builders@.take(i + 1).last() == builders@[i as int]);
                lemma_count_of_bound(builders@.take(i as int), harvesting());
                lemma_count_of_bound(builders@.take(i as int), building_any());
            }
            match builders[i].task {
                BuildTask::Harvest => {
                    harvesters = harvesters + 1;
                },
                BuildTask::Build(..) => {
                    building = building + 1;
                },
                _ => {},
            }
            i = i + 1;
        }
        proof {
            assert(builders@.take(builders.len() as int) =~= builders@);
        }
        if harvesters == 0 {
            assert(actions@ =~= start + offer);
            return;
        }
        let mut need_resource: i64 = 0;
        let mut k: usize = 0;
        let mut fits = true;
        proof {
            assert(constructions@.take(0) =~= Seq::<Construction>::empty());
        }
        while k < constructions.len() && fits
            invariant
                k <= constructions.len(),
                need_resource == need_total(constructions@.take(k as int)),
                fits ==> forall|j: int| 0 <= j <= k ==> in_i32(#[trigger] need_total(constructions@.take(j))),
                !fits ==> exists|j: int| 0 <= j <= constructions.len() && !in_i32(#[trigger] need_total(constructions@.take(j))),
            decreases constructions.len() - k + if fits { 1int } else { 0int },
        {
            proof {
                assert(constructions@.take(k + 1).drop_last() =~= constructions@.take(k as int));
                assert(constructions@.take(k + 1).last() == constructions@[k as int]);
            }
            let next = need_resource + constructions[k].need_resource as i64;
            if next < i32::MIN as i64 || next > i32::MAX as i64 {
                fits = false;
                proof {
                    assert(!in_i32(need_total(constructions@.take(k + 1))));
                }
            } else {
                need_resource = next;
                k = k + 1;
                proof {
                    assert forall|j: int| 0 <= j <= k implies in_i32(#[trigger] need_total(constructions@.take(j))) by {
                        if j < k {
                        }
                    }
                }
            }
        }
        if !fits {
            proof {
                assert(!need_sums_fit(v.constructions));
            }
            assert(actions@ =~= start + offer);
            return;
        }
        proof {
            assert(constructions@.take(constructions.len() as int) =~= constructions@);
            assert(need_sums_fit(v.constructions));
        }
        let need_resource = need_resource as i32;
        let rate = properties.construct_rate;
        if rate == 0 || (need_resource == i32::MIN && rate == -1) {
            assert(actions@ =~= start + offer);
            return;
        }
        let need_abs: u64 = if need_resource < 0 { (-(need_resource as i64)) as u64 } else { need_resource as u64 };
        let rate_abs: u64 = if rate < 0 { (-(rate as i64)) as u64 } else { rate as u64 };
        let q = (need_abs / rate_abs) as i64;
        let quotient: i64 = if (need_resource < 0) == (rate < 0) { q } else { -q };
        proof {
            assert(need_abs == abs_int(need_resource as int));
            assert(rate_abs == abs_int(rate as int));
            assert(q == abs_int(need_resource as int) / abs_int(rate as int));
            assert(0 <= q <= 0x8000_0000) by (nonlinear_arith)
                requires
                    q == need_abs / rate_abs,
                    need_abs <= 0x8000_0000,
                    rate_abs >= 1,
            ;
            assert(quotient == quotient_toward_zero(need_resource as int, rate as int));
        }
        let ticks = quotient as i128 + 1;
        let harvesters_left = ((harvesters - 1) as i32) as i128;
        let builders_then = (((building as u128) + 1) as i32) as i128;
        let harvest_rate = properties.harvest_rate as i128;
        let construct_rate = rate as i128;
        proof {
            assert(-0x4000_0000_0000_0000 <= harvesters_left * harvest_rate <= 0x4000_0000_0000_0000) by (nonlinear_arith)
                requires
                    -0x8000_0000 <= harvesters_left <= 0x8000_0000,
                    -0x8000_0000 <= harvest_rate <= 0x8000_0000,
            ;
            assert(-0x4000_0000_0000_0000 <= builders_then * construct_rate <= 0x4000_0000_0000_0000) by (nonlinear_arith)
                requires
                    -0x8000_0000 <= builders_then <= 0x8000_0000,
                    -0x8000_0000 <= construct_rate <= 0x8000_0000,
            ;
        }
        let resource_income = harvesters_left * harvest_rate;
        let resource_outcome = builders_then * construct_rate;
        proof {
            assert(-0x8000_0001 <= ticks <= 0x8000_0001);
            assert(-0x2_0000_0000_0000_0000_0000_0000 <= resource_income * ticks <= 0x2_0000_0000_0000_0000_0000_0000) by (nonlinear_arith)
                requires
                    -0x4000_0000_0000_0000 <= resource_income <= 0x4000_0000_0000_0000,
                    -0x8000_0001 <= ticks <= 0x8000_0001,
            ;
            assert(-0x2_0000_0000_0000_0000_0000_0000 <= resource_outcome * ticks <= 0x2_0000_0000_0000_0000_0000_0000) by (nonlinear_arith)
                requires
                    -0x4000_0000_0000_0000 <= resource_outcome <= 0x4000_0000_0000_0000,
                    -0x8000_0001 <= ticks <= 0x8000_0001,
            ;
        }
        if (simulator.resource() as i128) + resource_income * ticks < resource_outcome * ticks {
            proof {
                assert(!keeps_up(properties, v));
            }
            assert(actions@ =~= start + offer);
            return;
        }
        proof {
            assert(keeps_up(properties, v));
        }
        let mut chosen: Option<usize> = None;
        let mut b: usize = 0;
        while b < builders.len() && chosen.is_none()
            invariant
                b <= builders.len(),
                chosen is None ==> first_index(builders@.take(b as int), sendable()) == -1,
                chosen matches Some(x) ==> x == first_index(builders@, sendable()) && x < builders.len(),
            decreases builders.len() - b,
        {
            proof {
                assert(builders@.take(b + 1).drop_last() =~= builders@.take(b as int));
                assert(builders@.take(b + 1).last() == builders@[b as int]);
            }
            let builder = builders[b];
            if builder.task == BuildTask::Idle || (builder.task == BuildTask::Harvest && builder.ticks_to_start == 0) {
                chosen = Some(b);
                proof {
                    lemma_first_index_prefix(builders@, b + 1, sendable());
                }
            }
            b = b + 1;
        }
        proof {
            if chosen is None {
                assert(builders@.take(builders.len() as int) =~= builders@);
            }
        }
        let ghost free = with_free_place(v.builders, construction_places@);
        let mut target: Option<usize> = None;
        let mut c: usize = 0;
        while c < constructions.len() && target.is_none()
            invariant
                c <= constructions.len(),
                construction_places.len() == 2,
                builders@ == v.builders,
                free == with_free_place(v.builders, construction_places@),
                target is None ==> first_index(constructions@.take(c as int), free) == -1,
                target matches Some(x) ==> x == first_index(constructions@, free) && x < constructions.len(),
            decreases constructions.len() - c,
        {
            proof {
                assert(constructions@.take(c + 1).drop_last() =~= constructions@.take(c as int));
                assert(constructions@.take(c + 1).last() == constructions@[c as int]);
            }
            let construction = constructions[c];
            let mut assigned: usize = 0;
            let mut x: usize = 0;
            while x < builders.len()
                invariant
                    x <= builders.len(),
                    assigned == count_of(builders@.take(x as int), building_id(construction.id)),
                decreases builders.len() - x,
            {
                proof {
                    assert(builders@.take(x + 1).drop_last() =~= builders@.take(x as int));
                    assert(builders@.take(x + 1).last() == builders@[x as int]);
                    lemma_count_of_bound(builders@.take(x as int), building_id(construction.id));
                }
                if builders[x].task == BuildTask::Build(construction.id) {
                    assigned = assigned + 1;
                }
                x = x + 1;
            }
            proof {
                assert(builders@.take(builders.len() as int) =~= builders@);
            }
            let assigned = assigned as i32;
            if assigned < construction_places[construction.building.index()] {
                target = Some(c);
                proof {
                    lemma_first_index_prefix(constructions@, c + 1, free);
                }
            }
            c = c + 1;
        }
        proof {
            if target is None {
                assert(constructions@.take(constructions.len() as int) =~= constructions@);
            }
        }
        match (chosen, target) {
            (Some(builder_index), Some(t)) => {
                actions.push(BuildAction::Assign { builder_index, task: BuildTask::Build(constructions[t].id) });
            },
            _ => {},
        }
        proof {
            assert(actions@ =~= start + offer);
        }
    }

    /// Step `a` from state `i` was played, or could not be: some state of the search holds what
    /// it makes of state `i`, or it is not `playable`, or the score of what it makes does not
    /// fit an `i32`.
    pub closed spec fn reached(self, p: &BuildProperties, i: int, a: BuildAction) -> bool {
        let effect = action_effect(p, self.states@[i].simulator@, a);
        ||| (exists|j: int| 0 <= j < self.states.len() && #[trigger] self.states@[j].simulator@ == effect)
        ||| !playable(p, self.states@[i].simulator@, a)
        ||| !in_i32(spec_score(effect))
    }

    /// State `i` grew by every step the search offers from it (`offered`), unless it is final,
    /// `max_depth` steps deep, or the search took `max_transitions` steps.
    pub closed spec fn expanded(self, p: &BuildProperties, i: int, population_use: int, places: Seq<i32>, max_transitions: int) -> bool {
        ||| self.finals@[i]
        ||| self.states@[i].depth >= self.max_depth
        ||| self.transitions.len() >= max_transitions
        ||| forall|a: BuildAction|
            #[trigger] offered(p, self.states@[i].simulator@, population_use, places).contains(a) ==> self.reached(p, i, a)
    }

    /// A search that only grew keeps every step it played.
    proof fn lemma_reached_kept(self, next: Self, p: &BuildProperties, i: int, a: BuildAction)
        requires
            self.reached(p, i, a),
            0 <= i < self.states.len(),
            next.states.len() >= self.states.len(),
            forall|k: int| 0 <= k < self.states.len() ==> #[trigger] next.states@[k] == self.states@[k],
        ensures
            next.reached(p, i, a),
    {
        assert(next.states@[i] == self.states@[i]);
        let effect = action_effect(p, self.states@[i].simulator@, a);
        if exists|j: int| 0 <= j < self.states.len() && #[trigger] self.states@[j].simulator@ == effect {
            let j = choose|j: int| 0 <= j < self.states.len() && #[trigger] self.states@[j].simulator@ == effect;
            assert(next.states@[j] == self.states@[j]);
        }
    }

    /// A search that only grew keeps every state it expanded so.
    proof fn lemma_expanded_kept(self, next: Self, p: &BuildProperties, i: int, population_use: int, places: Seq<i32>, max_transitions: int)
        requires
            self.expanded(p, i, population_use, places, max_transitions),
            0 <= i < self.states.len(),
            next.states.len() >= self.states.len(),
            next.transitions.len() >= self.transitions.len(),
            next.max_depth == self.max_depth,
            forall|k: int| 0 <= k < self.states.len() ==> #[trigger] next.states@[k] == self.states@[k],
            next.finals@[i] == self.finals@[i],
        ensures
            next.expanded(p, i, population_use, places, max_transitions),
    {
        assert(next.states@[i] == self.states@[i]);
        assert forall|a: BuildAction| #[trigger] offered(p, next.states@[i].simulator@, population_use, places).contains(a) && self.reached(p, i, a) implies next.reached(p, i, a) by {
            self.lemma_reached_kept(next, p, i, a);
        }
    }

    /// The best final state among those taken from the queue: `opt` with score `max_score`, or
    /// none, while every such state scores the least `i32`.
    spec fn best_so_far(self, popped: Seq<bool>, opt: Option<usize>, max_score: i32) -> bool {
        match opt {
            Some(b) => {
                &&& b < self.states.len()
                &&& popped[b as int]
                &&& self.finals@[b as int]
                &&& max_score == self.key(b as int)
                &&& forall|i: int| 0 <= i < self.states.len() && #[trigger] popped[i] && self.finals@[i] ==> self.key(i) <= max_score
            },
            None => {
                &&& max_score == i32::MIN
                &&& forall|i: int| 0 <= i < self.states.len() && #[trigger] popped[i] && self.finals@[i] ==> self.key(i) == i32::MIN
            },
        }
    }

    /// A state that joins the search, not taken from the queue, keeps what was best so far.
    proof fn lemma_best_kept(self, next: Self, popped: Seq<bool>, opt: Option<usize>, max_score: i32)
        requires
            self.best_so_far(popped, opt, max_score),
            popped.len() == self.states.len(),
            next.states.len() == self.states.len() + 1,
            forall|i: int| 0 <= i < self.states.len() ==> #[trigger] next.states@[i] == self.states@[i],
            forall|i: int| 0 <= i < self.finals@.len() ==> #[trigger] next.finals@[i] == self.finals@[i],
            self.finals@.len() == self.states.len(),
        ensures
            next.best_so_far(popped.push(false), opt, max_score),
    {
        let q = popped.push(false);
        assert forall|i: int| 0 <= i < self.states.len() implies #[trigger] next.key(i) == self.key(i) && q[i] == popped[i] by {
            assert(next.states@[i] == self.states@[i]);
        }
        match opt {
            Some(b) => {
                assert(next.key(b as int) == self.key(b as int));
                assert(next.finals@[b as int] == self.finals@[b as int]);
                assert forall|i: int| 0 <= i < next.states.len() && #[trigger] q[i] && next.finals@[i] implies next.key(i) <= max_score by {
                    assert(i < self.states.len());
                    assert(next.finals@[i] == self.finals@[i]);
                }
            },
            None => {
                assert forall|i: int| 0 <= i < next.states.len() && #[trigger] q[i] && next.finals@[i] implies next.key(i) == i32::MIN by {
                    assert(i < self.states.len());
                    assert(next.finals@[i] == self.finals@[i]);
                }
            },
        }
    }

    /// The depth of state `i`.
    pub closed spec fn depth_of(self, i: int) -> int {
        self.states@[i].depth as int
    }

    /// Searches, best score first, the plays of the build simulator from `simulator` in the
    /// game's economy, for the best state that `is_final` accepts: each state taken from the
    /// queue is checked; a state that is not final and is less than `max_depth` steps deep,
    /// while fewer than `max_transitions` steps were taken, grows by the steps on offer (buying
    /// a builder, starting a ranged base first or else a house, sending an idle builder to
    /// harvest, sending a builder to a construction, playing five ticks). Gives back how many
    /// states were taken from the queue and the plan to the best final state found.
    pub fn update<F: Fn(&BuildSimulator) -> bool>(
        &mut self,
        simulator: BuildSimulator,
        entity_properties: &Vec<EntityProperties>,
        max_transitions: usize,
        is_final: F,
    ) -> (r: (usize, BuildPlan))
        requires
            entity_properties.len() == ENTITY_TYPES_COUNT,
            entity_properties@[3].attack.is_some(),
            entity_properties@[3].repair.is_some(),
            in_i32(entity_properties@[8].resource_per_health * entity_properties@[3].attack.unwrap().damage),
            in_i32(4 * entity_properties@[1].size),
            in_i32(4 * entity_properties@[6].size),
            old(self).spec_max_depth() * 5 <= i32::MAX,
            forall|s: &BuildSimulator| #[trigger] is_final.requires((s,)),
        ensures
            final(self).search_ok(),
            economy_of(&final(self).economy(), 5, entity_properties@),
            final(self).state_simulator(0)@ == simulator@,
            final(self).spec_max_depth() == old(self).spec_max_depth(),
            r.0 == final(self).states_len(),
            forall|i: int|
                0 <= i < final(self).states_len() ==> is_final.ensures(
                    (&final(self).state_simulator(i),),
                    final(self).is_final_state(i),
                ),
            forall|i: int| 0 <= i < final(self).states_len() ==> #[trigger] final(self).depth_of(i) <= final(self).spec_max_depth(),
            forall|i: int|
                0 <= i < final(self).states_len() ==> #[trigger] final(self).expanded(
                    &final(self).economy(),
                    i,
                    entity_properties@[3].population_use as int,
                    places_of(entity_properties@),
                    max_transitions as int,
                ),
            match final(self).optimal() {
                Some(b) => {
                    &&& b < final(self).states_len()
                    &&& final(self).is_final_state(b as int)
                    &&& r.1.score == final(self).key(b as int)
                    &&& forall|i: int|
                        0 <= i < final(self).states_len() && final(self).is_final_state(i) ==> final(self).key(i)
                            <= r.1.score
                    &&& r.1.transitions@ == merged(final(self).chain(b as int))
                    &&& replay(&final(self).economy(), simulator@, r.1.transitions@) == final(self).state_simulator(b as int)@
                },
                None => {
                    &&& forall|i: int|
                        0 <= i < final(self).states_len() && final(self).is_final_state(i) ==> final(self).key(i) == i32::MIN
                    &&& r.1.transitions@ == Seq::<BuildAction>::empty()
                    &&& r.1.score == 0
                },
            },
    {
        let ghost init = simulator@;
        let p = BuildProperties::new(5, entity_properties);
        let construction_places: Vec<i32> = vec![4 * entity_properties[1].size, 4 * entity_properties[6].size];
        let builder_population_use = entity_properties[3].population_use;
        self.states = Vec::new();
        self.transitions = Vec::new();
        self.properties = None;
        self.optimal_final_state_index = None;
        self.states.push(PlanState { depth: 0, simulator, transition: None });
        proof {
            self.finals@ = seq![false];
        }
        let mut frontier: Vec<(i32, usize)> = Vec::new();
        frontier.push((0, 0));
        let ghost mut popped: Seq<bool> = seq![false];
        let mut max_score = i32::MIN;
        let mut optimal_final_state_index: Option<usize> = None;
        let mut iteration: usize = 0;
        proof {
            assert(self.tree_ok(&p));
            assert(frontier@[0].1 == 0);
            assert(queued(frontier@, 0));
            assert forall|i: int| 0 <= i < self.states.len() implies (#[trigger] popped[i] <==> !queued(frontier@, i)) by {
                assert(i == 0);
            }
        }
        while frontier.len() > 0
            invariant
                self.tree_ok(&p),
                economy_of(&p, 5, entity_properties@),
                self.states@[0].simulator@ == init,
                self.max_depth == old(self).max_depth,
                self.max_depth * 5 <= i32::MAX,
                self.properties is None,
                construction_places.len() == 2,
                forall|s: &BuildSimulator| #[trigger] is_final.requires((s,)),
                forall|i: int| 0 <= i < self.states.len() ==> #[trigger] self.states@[i].depth <= self.max_depth,
                self.transitions.len() <= max_transitions + 4,
                iteration + frontier.len() == self.states.len(),
                queue_ok(frontier@, popped, self.states.len() as int),
                forall|j: int| 0 <= j < frontier.len() ==> (#[trigger] frontier@[j]).0 == self.key(frontier@[j].1 as int),
                forall|i: int| 0 <= i < self.states.len() && #[trigger] popped[i] ==> is_final.ensures(
                    (&self.states@[i].simulator,),
                    self.finals@[i],
                ),
                forall|i: int| 0 <= i < self.states.len() && !(#[trigger] popped[i]) ==> !self.finals@[i],
                self.best_so_far(popped, optimal_final_state_index, max_score),
                builder_population_use == entity_properties@[3].population_use,
                construction_places@ == places_of(entity_properties@),
                forall|i: int|
                    0 <= i < self.states.len() && #[trigger] popped[i] ==> self.expanded(
                        &p,
                        i,
                        builder_population_use as int,
                        construction_places@,
                        max_transitions as int,
                    ),
            decreases max_transitions + 5 - self.transitions.len(), frontier.len(),
        {
            let best = best_entry(&frontier);
            let ghost before = frontier@;
            let (score, state_index) = frontier.remove(best);
            proof {
                lemma_queue_remove(before, popped, self.states.len() as int, best as int);
                popped = popped.update(state_index as int, true);
            }
            iteration = iteration + 1;
            let final_state = is_final(&self.states[state_index].simulator);
            let ghost before_pop = *self;
            proof {
                self.finals@ = self.finals@.update(state_index as int, final_state);
                assert(queue_ok(frontier@, popped, self.states.len() as int));
                assert forall|i: int|
                    0 <= i < self.states.len() && #[trigger] popped[i] && i != state_index implies self.expanded(
                        &p,
                        i,
                        builder_population_use as int,
                        construction_places@,
                        max_transitions as int,
                    ) by {
                    before_pop.lemma_expanded_kept(*self, &p, i, builder_population_use as int, construction_places@, max_transitions as int);
                }
            }
            if final_state {
                if max_score < score {
                    max_score = score;
                    optimal_final_state_index = Some(state_index);
                }
                continue;
            }
            if self.states[state_index].depth >= self.max_depth || self.transitions.len() >= max_transitions {
                continue;
            }
            let mut actions: Vec<BuildAction> = Vec::new();
            self.try_buy_builder(state_index, &p, builder_population_use, max_transitions, &mut actions);
            let current = &self.states[state_index].simulator;
            let constructions = current.constructions();
            let mut no_ranged_base = true;
            let mut c: usize = 0;
            while c < constructions.len()
                invariant
                    c <= constructions.len(),
                    no_ranged_base == forall|k: int| 0 <= k < c ==> #[trigger] constructions@[k].building != Building::RangedBase,
                decreases constructions.len() - c,
            {
                if constructions[c].building == Building::RangedBase {
                    no_ranged_base = false;
                }
                c = c + 1;
            }
            if no_ranged_base {
                let buildings = current.buildings();
                if buildings.len() > 1 && buildings[1] == 0 && p.start_costs[1] <= current.resource() {
                    self.try_build(Building::RangedBase, state_index, &p, max_transitions, &mut actions);
                } else {
                    self.try_build(Building::House, state_index, &p, max_transitions, &mut actions);
                }
            }
            self.try_assign_to_harvest(state_index, max_transitions, &mut actions);
            self.try_assign_to_build(state_index, &construction_places, &p, max_transitions, &mut actions);
            let ghost steps = actions@;
            actions.push(BuildAction::Simulate { ticks: 5 });
            let ghost from = self.states@[state_index as int];
            proof {
                assert(actions@ =~= offered(&p, from.simulator@, builder_population_use as int, construction_places@));
            }
            proof {
                assert forall|k: int| 0 <= k < actions.len() implies ((#[trigger] actions@[k]) matches BuildAction::Simulate { ticks } ==> ticks == 5) by {
                    if k < steps.len() {
                        assert(actions@[k] == steps[k]);
                    }
                }
            }
            let ghost transitions_before = self.transitions.len();
            let ghost frontier_start = frontier.len();
            let mut a: usize = 0;
            while a < actions.len()
                invariant
                    self.tree_ok(&p),
                    economy_of(&p, 5, entity_properties@),
                    self.states@[0].simulator@ == init,
                    self.max_depth == old(self).max_depth,
                    self.max_depth * 5 <= i32::MAX,
                    self.properties is None,
                    construction_places.len() == 2,
                    forall|s: &BuildSimulator| #[trigger] is_final.requires((s,)),
                    state_index < self.states.len(),
                    self.states@[state_index as int].depth < self.max_depth,
                    forall|k: int| 0 <= k < actions.len() ==> ((#[trigger] actions@[k]) matches BuildAction::Simulate { ticks } ==> ticks == 5),
                    actions.len() <= 5,
                    a <= actions.len(),
                    transitions_before < max_transitions,
                    transitions_before <= self.transitions.len() <= transitions_before + a,
                    frontier.len() + transitions_before == frontier_start + self.transitions.len(),
                    forall|i: int| 0 <= i < self.states.len() ==> #[trigger] self.states@[i].depth <= self.max_depth,
                    iteration + frontier.len() == self.states.len(),
                    queue_ok(frontier@, popped, self.states.len() as int),
                    forall|j: int| 0 <= j < frontier.len() ==> (#[trigger] frontier@[j]).0 == self.key(frontier@[j].1 as int),
                    forall|i: int| 0 <= i < self.states.len() && #[trigger] popped[i] ==> is_final.ensures(
                        (&self.states@[i].simulator,),
                        self.finals@[i],
                    ),
                    forall|i: int| 0 <= i < self.states.len() && !(#[trigger] popped[i]) ==> !self.finals@[i],
                    self.best_so_far(popped, optimal_final_state_index, max_score),
                    builder_population_use == entity_properties@[3].population_use,
                    construction_places@ == places_of(entity_properties@),
                    popped[state_index as int],
                    self.states@[state_index as int] == from,
                    actions@ == offered(&p, from.simulator@, builder_population_use as int, construction_places@),
                    forall|k: int| 0 <= k < a ==> self.reached(&p, state_index as int, #[trigger] actions@[k]),
                    forall|i: int|
                        0 <= i < self.states.len() && #[trigger] popped[i] && i != state_index ==> self.expanded(
                            &p,
                            i,
                            builder_population_use as int,
                            construction_places@,
                            max_transitions as int,
                        ),
                decreases actions.len() - a,
            {
                let ghost old_self = *self;
                let ghost old_frontier = frontier@;
                let ghost old_popped = popped;
                let added = self.add_transition(actions[a], state_index, &p);
                match added {
                    Some(entry) => {
                        frontier.push(entry);
                        proof {
                            lemma_queue_push(old_frontier, popped, old_self.states.len() as int, entry);
                            old_self.lemma_best_kept(*self, popped, optimal_final_state_index, max_score);
                            popped = popped.push(false);
                            let j = entry.1 as int;
                            assert(self.states@[j].simulator@ == action_effect(&p, from.simulator@, actions@[a as int]));
                            assert(self.reached(&p, state_index as int, actions@[a as int]));
                        }
                    },
                    None => {
                        proof {
                            assert(self.states@ =~= old_self.states@);
                            assert(old_self.states@[state_index as int] == from);
                            assert(self.reached(&p, state_index as int, actions@[a as int]));
                        }
                    },
                }
                proof {
                    assert forall|k: int| 0 <= k < a + 1 implies self.reached(&p, state_index as int, #[trigger] actions@[k]) by {
                        if k < a {
                            old_self.lemma_reached_kept(*self, &p, state_index as int, actions@[k]);
                        }
                    }
                    assert forall|i: int|
                        0 <= i < self.states.len() && #[trigger] popped[i] && i != state_index implies self.expanded(
                            &p,
                            i,
                            builder_population_use as int,
                            construction_places@,
                            max_transitions as int,
                        ) by {
                        assert(i < old_self.states.len());
                        assert(old_popped[i]);
                        old_self.lemma_expanded_kept(*self, &p, i, builder_population_use as int, construction_places@, max_transitions as int);
                    }
                }
                a = a + 1;
            }
            assert(self.transitions.len() > transitions_before || frontier.len() == frontier_start);
        }
        let ghost searched = *self;
        proof {
            assert forall|i: int| 0 <= i < self.states.len() implies self.expanded(
                &p,
                i,
                builder_population_use as int,
                construction_places@,
                max_transitions as int,
            ) by {
                if !popped[i] {
                    assert(queued(frontier@, i));
                    let j = choose|j: int| 0 <= j < frontier@.len() && frontier@[j].1 == i;
                    assert(false);
                }
            }
        }
        self.optimal_final_state_index = optimal_final_state_index;
        self.properties = Some(p);
        proof {
            assert forall|i: int| 0 <= i < self.states_len() implies #[trigger] self.expanded(
                &self.economy(),
                i,
                entity_properties@[3].population_use as int,
                places_of(entity_properties@),
                max_transitions as int,
            ) by {
                searched.lemma_expanded_kept(*self, &p, i, builder_population_use as int, construction_places@, max_transitions as int);
            }
            assert(self.tree_ok(&p));
            assert forall|i: int| 0 <= i < self.states.len() implies #[trigger] popped[i] by {
                if !popped[i] {
                    assert(queued(frontier@, i));
                    let j = choose|j: int| 0 <= j < frontier@.len() && frontier@[j].1 == i;
                    assert(false);
                }
            }
            assert forall|i: int| 0 <= i < self.states_len() implies is_final.ensures(
                (&self.state_simulator(i),),
                self.is_final_state(i),
            ) by {
                assert(popped[i]);
            }
            assert forall|i: int| 0 <= i < self.states_len() && #[trigger] self.is_final_state(i) implies (match optimal_final_state_index {
                Some(b) => self.key(i) <= max_score,
                None => self.key(i) == i32::MIN,
            }) by {
                assert(popped[i]);
            }
        }
        let plan = match optimal_final_state_index {
            Some(b) => {
                proof {
                    self.lemma_chain_replays(&p, b as int);
                    lemma_merged_replays(&p, init, self.chain(b as int));
                }
                let transitions = self.reconstruct_sequence(b);
                BuildPlan { transitions, score: max_score }
            },
            None => BuildPlan::default(),
        };
        (iteration, plan)
    }

    /// A planner for plans of at most `max_depth` steps.
    pub fn new(max_depth: usize) -> (r: Self)
        ensures
            r.spec_max_depth() == max_depth,
            r.states_len() == 0,
            r.optimal() is None,
    {
        Self {
            max_depth,
            states: Vec::new(),
            transitions: Vec::new(),
            optimal_final_state_index: None,
            properties: None,
            finals: Ghost(Seq::empty()),
        }
    }
}

} // verus!
