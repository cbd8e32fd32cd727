//! The simulation: the world state, advanced tick by tick, and the snapshot
//! that the display reads.

use std::time::Duration;

use vstd::prelude::*;

use crate::base::{BaseStats, BaseStorage};
use crate::comms::{ActorId, Envelope, Message, Recipient, StatusMessage};
use crate::domain::{Event, Position, ResourceNode, RobotKind, RobotSnapshot, RobotState, WorldSnapshot};
use crate::knowledge::{read_state, KnowledgeState, KnowledgeView, SharedKnowledge};
use crate::map::{Grid, GridView};
use crate::robots::{Collector, Scout};

verus! {

/// How long one tick lasts, in milliseconds.
pub const TICK_MILLIS: u64 = 200;

/// What `std::time::Duration::from_millis` builds from a count of
/// milliseconds.
pub uninterp spec fn millis_duration(ms: u64) -> Duration;

/// `std::time::Duration::from_millis`: the duration of `ms` milliseconds
/// (the function is total and depends on `ms` alone).
#[verifier::external_body]
fn duration_from_millis(ms: u64) -> (d: Duration)
    ensures
        d == millis_duration(ms),
{
    Duration::from_millis(ms)
}

/// The fixed size of the program and its entry point.
pub struct AppSkeleton {
    pub module_count: usize,
    pub entrypoint: &'static str,
}

/// The abstract state of a simulation.
pub struct SimulationView {
    pub grid: GridView,
    pub base: BaseStats,
    pub scouts: Seq<Scout>,
    pub collectors: Seq<Collector>,
    pub tick: u64,
    pub events: Seq<Event>,
    pub messages: Seq<Envelope>,
}

/// The scouts as the display sees them.
pub open spec fn scout_snapshots(scouts: Seq<Scout>) -> Seq<RobotSnapshot> {
    scouts.map_values(
        |s: Scout|
            RobotSnapshot {
                id: s@.id,
                kind: RobotKind::Scout,
                position: s@.position,
                state: RobotState::Exploring,
                carrying: None,
            },
    )
}

/// The collectors as the display sees them.
pub open spec fn collector_snapshots(collectors: Seq<Collector>) -> Seq<RobotSnapshot> {
    collectors.map_values(
        |c: Collector|
            RobotSnapshot {
                id: c@.id,
                kind: RobotKind::Collector,
                position: c@.position,
                state: c@.state,
                carrying: c@.carrying,
            },
    )
}

/// The robots as the display sees them: the scouts, then the collectors.
pub open spec fn robot_snapshots(scouts: Seq<Scout>, collectors: Seq<Collector>) -> Seq<RobotSnapshot> {
    scout_snapshots(scouts) + collector_snapshots(collectors)
}

impl SimulationView {
    /// The snapshot of this state: its tick, the base position (the origin
    /// when there is no base), the robots, the deposits on the grid, the
    /// obstacles that the shared store knows when it is read (each once;
    /// other handles may change the store, so which ones is not fixed here),
    /// the stock and the events of the tick.
    pub open spec fn is_snapshot(self, s: WorldSnapshot) -> bool {
        &&& s.tick == self.tick
        &&& s.base_position == match self.grid.base {
            Some(b) => b,
            None => Position { x: 0, y: 0 },
        }
        &&& s.robots@ == robot_snapshots(self.scouts, self.collectors)
        &&& s.resources@ == self.grid.resources
        &&& s.obstacles@.no_duplicates()
        &&& s.collected_energy == self.base.energy
        &&& s.collected_crystals == self.base.crystals
        &&& s.events@ == self.events
    }
}

/// The world and its robots.
#[derive(Debug)]
pub struct Simulation {
    grid: Grid,
    knowledge: SharedKnowledge,
    base: BaseStorage,
    scouts: Vec<Scout>,
    collectors: Vec<Collector>,
    tick: u64,
    tick_duration: Duration,
    events: Vec<Event>,
    messages: Vec<Envelope>,
}

impl Simulation {
    pub closed spec fn view(&self) -> SimulationView {
        SimulationView {
            grid: self.grid@,
            base: self.base@,
            scouts: self.scouts@,
            collectors: self.collectors@,
            tick: self.tick,
            events: self.events@,
            messages: self.messages@,
        }
    }

    pub closed spec fn wf(&self) -> bool {
        self.grid.wf() && self.tick_duration == millis_duration(TICK_MILLIS)
    }

    /// A simulation on `grid` at tick zero, with nothing known, an empty
    /// stock, no robots, no events and no messages.
    pub fn new(grid: Grid) -> (s: Self)
        requires
            grid.wf(),
        ensures
            s.wf(),
            s@.grid == grid@,
            s@.base == (BaseStats { energy: 0, crystals: 0 }),
            s@.scouts == Seq::<Scout>::empty(),
            s@.collectors == Seq::<Collector>::empty(),
            s@.tick == 0,
            s@.events == Seq::<Event>::empty(),
            s@.messages == Seq::<Envelope>::empty(),
    {
        Simulation {
            grid,
            knowledge: SharedKnowledge::new(),
            base: BaseStorage::new(),
            scouts: Vec::new(),
            collectors: Vec::new(),
            tick: 0,
            tick_duration: duration_from_millis(TICK_MILLIS),
            events: Vec::new(),
            messages: Vec::new(),
        }
    }

    pub fn tick(&self) -> (t: u64)
        ensures
            t == self@.tick,
    {
        self.tick
    }

    /// The fixed length of a tick.
    pub fn tick_duration(&self) -> (d: Duration)
        requires
            self.wf(),
        ensures
            d == millis_duration(TICK_MILLIS),
    {
        self.tick_duration
    }

    /// A handle on the store of what the robots know, shared with the
    /// simulation's own.
    pub fn knowledge(&self) -> SharedKnowledge {
        self.knowledge.clone()
    }

    pub fn add_scout(&mut self, scout: Scout)
        requires
            old(self).wf(),
        ensures
            final(self).wf(),
            final(self)@ == (SimulationView { scouts: old(self)@.scouts.push(scout), ..old(self)@ }),
    {
        self.scouts.push(scout);
    }

    pub fn add_collector(&mut self, collector: Collector)
        requires
            old(self).wf(),
        ensures
            final(self).wf(),
            final(self)@ == (SimulationView {
                collectors: old(self)@.collectors.push(collector),
                ..old(self)@
            }),
    {
        self.collectors.push(collector);
    }

    pub fn scouts(&self) -> (r: &[Scout])
        ensures
            r@ == self@.scouts,
    {
        self.scouts.as_slice()
    }

    pub fn collectors(&self) -> (r: &[Collector])
        ensures
            r@ == self@.collectors,
    {
        self.collectors.as_slice()
    }

    pub fn base(&self) -> (r: &BaseStorage)
        ensures
            r@ == self@.base,
    {
        &self.base
    }

    /// The messages of the current tick.
    pub fn messages(&self) -> (r: &[Envelope])
        ensures
            r@ == self@.messages,
    {
        self.messages.as_slice()
    }

    /// Moves to the next tick: the events and messages of the tick are
    /// replaced by the tick announcement; answers the new snapshot.
    pub fn advance_tick(&mut self) -> (s: WorldSnapshot)
        requires
            old(self).wf(),
            old(self)@.tick < u64::MAX,
        ensures
            final(self).wf(),
            final(self)@ == (SimulationView {
                tick: (old(self)@.tick + 1) as u64,
                events: seq![Event::TickAdvanced { tick: (old(self)@.tick + 1) as u64 }],
                messages: seq![
                    Envelope {
                        sender: ActorId::Simulation,
                        recipient: Recipient::Broadcast,
                        message: Message::Status(
                            StatusMessage::TickAdvanced { tick: (old(self)@.tick + 1) as u64 },
                        ),
                    },
                ],
                ..old(self)@
            }),
            final(self)@.is_snapshot(s),
    {
        self.tick = self.tick + 1;
        self.events.clear();
        self.messages.clear();
        self.events.push(Event::TickAdvanced { tick: self.tick });
        self.messages.push(
            Envelope::new(
                ActorId::Simulation,
                Recipient::Broadcast,
                Message::Status(StatusMessage::TickAdvanced { tick: self.tick }),
            ),
        );
        assert(self@.events =~= seq![Event::TickAdvanced { tick: self.tick }]);
        assert(self@.messages =~= seq![
            Envelope {
                sender: ActorId::Simulation,
                recipient: Recipient::Broadcast,
                message: Message::Status(StatusMessage::TickAdvanced { tick: self.tick }),
            },
        ]);
        self.snapshot()
    }

    /// The snapshot of the current state; see `SimulationView::is_snapshot`.
    pub fn snapshot(&self) -> (s: WorldSnapshot)
        requires
            self.wf(),
        ensures
            self@.is_snapshot(s),
            exists|k: KnowledgeView| k.wf() && s.obstacles@.to_set() == #[trigger] k.obstacles,
    {
        let guard = self.knowledge.lock_for_read();
        let state = read_state(&guard);
        proof {
            vstd::prelude::use_type_invariant(state);
            state.lemma_wf_view();
        }
        self.snapshot_from(state)
    }

    /// The snapshot of the current state with the obstacles that `store`
    /// knows, each once.
    fn snapshot_from(&self, store: &KnowledgeState) -> (s: WorldSnapshot)
        requires
            self.wf(),
        ensures
            self@.is_snapshot(s),
            s.obstacles@.to_set() == store@.obstacles,
    {
        let mut robots: Vec<RobotSnapshot> = Vec::new();
        let ghost scout_part = scout_snapshots(self@.scouts);
        let ghost collector_part = collector_snapshots(self@.collectors);
        let mut i: usize = 0;
        while i < self.scouts.len()
            invariant
                i <= self.scouts.len(),
                robots@ == scout_part.subrange(0, i as int),
                scout_part.len() == self.scouts@.len(),
                forall|j: int| 0 <= j < self.scouts@.len() ==> #[trigger] scout_part[j] == (RobotSnapshot {
                    id: self.scouts@[j]@.id,
                    kind: RobotKind::Scout,
                    position: self.scouts@[j]@.position,
                    state: RobotState::Exploring,
                    carrying: None,
                }),
            decreases self.scouts.len() - i,
        {
            let snap = self.scouts[i].snapshot();
            robots.push(snap);
            i = i + 1;
            assert(robots@ =~= scout_part.subrange(0, i as int));
        }
        let mut j: usize = 0;
        assert(scout_part.subrange(0, self.scouts@.len() as int) =~= scout_part);
        while j < self.collectors.len()
            invariant
                j <= self.collectors.len(),
                robots@ == scout_part + collector_part.subrange(0, j as int),
                collector_part.len() == self.collectors@.len(),
                forall|k: int| 0 <= k < self.collectors@.len() ==> #[trigger] collector_part[k] == (RobotSnapshot {
                    id: self.collectors@[k]@.id,
                    kind: RobotKind::Collector,
                    position: self.collectors@[k]@.position,
                    state: self.collectors@[k]@.state,
                    carrying: self.collectors@[k]@.carrying,
                }),
            decreases self.collectors.len() - j,
        {
            let snap = self.collectors[j].snapshot();
            robots.push(snap);
            j = j + 1;
            assert(robots@ =~= scout_part + collector_part.subrange(0, j as int));
        }
        assert(collector_part.subrange(0, self.collectors@.len() as int) =~= collector_part);
        let mut snapshot = WorldSnapshot {
            tick: self.tick,
            base_position: match self.grid.base_position() {
                Some(b) => b,
                None => Position::new(0, 0),
            },
            robots,
            resources: crate::knowledge::copy_vec(self.grid.resources()),
            obstacles: store.known_obstacles(),
            collected_energy: 0,
            collected_crystals: 0,
            events: crate::knowledge::copy_vec(&self.events),
        };
        self.base.apply_to_snapshot(&mut snapshot);
        snapshot
    }
}

/// Hooks every module together and describes the program.
pub fn bootstrap() -> (app: AppSkeleton)
    ensures
        app.module_count == 8,
        app.entrypoint@ == "src/main.rs"@,
{
    crate::domain::register();
    crate::knowledge::register();
    crate::map::register();
    crate::robots::register();
    crate::base::register();
    crate::comms::register();
    crate::ui::register();
    AppSkeleton { module_count: 8, entrypoint: "src/main.rs" }
}

/// Hooks the module into the rest of the crate.
pub fn register() {
}

} // verus!
