use vstd::prelude::*;

verus! {

/// What the statistics report; durations are in nanoseconds.
#[derive(Debug, Clone, Copy, PartialEq, Eq)]
pub struct StatsResult {
    pub total_entity_plan_cost: usize,
    pub find_hidden_path_calls: usize,
    pub reachability_updates: usize,
    pub last_tick_duration: u128,
    pub max_tick_duration: u128,
    pub last_tick_entity_plan_cost: usize,
    pub max_tick_entity_plan_cost: usize,
}

/// Counters of the work the bot does, kept across ticks; durations are in nanoseconds.
#[derive(Default)]
pub struct Stats {
    total_entity_plan_cost: usize,
    find_hidden_path_calls: usize,
    reachability_updates: usize,
    last_tick_duration: u128,
    max_tick_duration: u128,
    last_tick_entity_plan_cost: usize,
    max_tick_entity_plan_cost: usize,
}

impl View for Stats {
    type V = StatsResult;

    closed spec fn view(&self) -> StatsResult {
        StatsResult {
            total_entity_plan_cost: self.total_entity_plan_cost,
            find_hidden_path_calls: self.find_hidden_path_calls,
            reachability_updates: self.reachability_updates,
            last_tick_duration: self.last_tick_duration,
            max_tick_duration: self.max_tick_duration,
            last_tick_entity_plan_cost: self.last_tick_entity_plan_cost,
            max_tick_entity_plan_cost: self.max_tick_entity_plan_cost,
        }
    }
}

impl Stats {
    pub fn new() -> (r: Self)
        ensures
            r@ == (StatsResult {
                total_entity_plan_cost: 0,
                find_hidden_path_calls: 0,
                reachability_updates: 0,
                last_tick_duration: 0,
                max_tick_duration: 0,
                last_tick_entity_plan_cost: 0,
                max_tick_entity_plan_cost: 0,
            }),
    {
        Self {
            total_entity_plan_cost: 0,
            find_hidden_path_calls: 0,
            reachability_updates: 0,
            last_tick_duration: 0,
            max_tick_duration: 0,
            last_tick_entity_plan_cost: 0,
            max_tick_entity_plan_cost: 0,
        }
    }

    pub fn get_result(&self) -> (r: StatsResult)
        ensures
            r == self@,
    {
        StatsResult {
            total_entity_plan_cost: self.total_entity_plan_cost,
            find_hidden_path_calls: self.find_hidden_path_calls,
            reachability_updates: self.reachability_updates,
            last_tick_duration: self.last_tick_duration,
            max_tick_duration: self.max_tick_duration,
            last_tick_entity_plan_cost: self.last_tick_entity_plan_cost,
            max_tick_entity_plan_cost: self.max_tick_entity_plan_cost,
        }
    }

    pub fn total_entity_plan_cost(&self) -> (r: usize)
        ensures
            r == self@.total_entity_plan_cost,
    {
        self.total_entity_plan_cost
    }

    /// Counts the entity planning done this tick.
    pub fn add_entity_plan_cost(&mut self, number: usize)
        requires
            old(self)@.total_entity_plan_cost + number <= usize::MAX,
        ensures
            final(self)@ == (StatsResult {
                total_entity_plan_cost: (old(self)@.total_entity_plan_cost + number) as usize,
                last_tick_entity_plan_cost: number,
                ..old(self)@
            }),
    {
        self.total_entity_plan_cost = self.total_entity_plan_cost + number;
        self.last_tick_entity_plan_cost = number;
    }

    pub fn add_find_hidden_path_calls(&mut self, number: usize)
        requires
            old(self)@.find_hidden_path_calls + number <= usize::MAX,
        ensures
            final(self)@ == (StatsResult {
                find_hidden_path_calls: (old(self)@.find_hidden_path_calls + number) as usize,
                ..old(self)@
            }),
    {
        self.find_hidden_path_calls = self.find_hidden_path_calls + number;
    }

    pub fn add_path_updates(&mut self, number: usize)
        requires
            old(self)@.reachability_updates + number <= usize::MAX,
        ensures
            final(self)@ == (StatsResult {
                reachability_updates: (old(self)@.reachability_updates + number) as usize,
                ..old(self)@
            }),
    {
        self.reachability_updates = self.reachability_updates + number;
    }

    /// Records how long the last tick took; a new longest tick also records its planning cost.
    pub fn set_last_tick_duration(&mut self, value: u128)
        ensures
            final(self)@ == if old(self)@.max_tick_duration < value {
                StatsResult {
                    last_tick_duration: value,
                    max_tick_duration: value,
                    max_tick_entity_plan_cost: old(self)@.last_tick_entity_plan_cost,
                    ..old(self)@
                }
            } else {
                StatsResult { last_tick_duration: value, ..old(self)@ }
            },
    {
        self.last_tick_duration = value;
        if self.max_tick_duration < value {
            self.max_tick_duration = value;
            self.max_tick_entity_plan_cost = self.last_tick_entity_plan_cost;
        }
    }
}

} // verus!
