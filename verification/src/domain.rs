//! Core value types shared by every module of the simulation.

use vstd::prelude::*;

verus! {

/// A tile of the map in simulation space.
#[derive(Debug, Clone, Copy, PartialEq, Eq, Structural, Hash, Default)]
pub struct Position {
    pub x: i32,
    pub y: i32,
}

impl Position {
    pub fn new(x: i32, y: i32) -> (p: Self)
        ensures
            p.x == x,
            p.y == y,
    {
        Position { x, y }
    }
}

/// The two kinds of resource that can be harvested.
#[derive(Debug, Clone, Copy, PartialEq, Eq, Structural, Hash)]
pub enum ResourceType {
    Energy,
    Crystal,
}

/// Logical content of one map tile.
#[derive(Debug, Clone, Copy, PartialEq, Eq, Structural, Hash)]
pub enum Tile {
    Empty,
    Obstacle,
    Base,
    Resource(ResourceType),
}

/// A resource deposit on the map with the amount that is left in it.
#[derive(Debug, Clone, Copy, PartialEq, Eq, Structural)]
pub struct ResourceNode {
    pub position: Position,
    pub resource_type: ResourceType,
    pub remaining: u16,
}

impl ResourceNode {
    pub fn new(position: Position, resource_type: ResourceType, remaining: u16) -> (r: Self)
        ensures
            r.position == position,
            r.resource_type == resource_type,
            r.remaining == remaining,
    {
        ResourceNode { position, resource_type, remaining }
    }
}

/// A stable robot identifier.
#[derive(Debug, Clone, Copy, PartialEq, Eq, Structural, Hash, PartialOrd, Ord)]
pub struct RobotId(pub u32);

/// Distinguishes scouts from collectors.
#[derive(Debug, Clone, Copy, PartialEq, Eq, Structural, Hash)]
pub enum RobotKind {
    Scout,
    Collector,
}

/// The coarse states of a robot that the simulation and the display care about.
#[derive(Debug, Clone, Copy, PartialEq, Eq, Structural)]
pub enum RobotState {
    Idle,
    Exploring,
    MovingTo(Position),
    Collecting(ResourceType),
    ReturningToBase,
    Unloading,
}

/// The visible state of a robot, without its internal logic.
#[derive(Debug, Clone, Copy, PartialEq, Eq, Structural)]
pub struct RobotSnapshot {
    pub id: RobotId,
    pub kind: RobotKind,
    pub position: Position,
    pub state: RobotState,
    pub carrying: Option<ResourceType>,
}

/// Notable happenings that modules share.
#[derive(Debug, Clone, Copy, PartialEq, Eq, Structural)]
pub enum Event {
    ResourceDiscovered { robot_id: RobotId, resource: ResourceNode },
    ObstacleDiscovered { robot_id: RobotId, position: Position },
    ResourceCollected {
        robot_id: RobotId,
        resource_type: ResourceType,
        position: Position,
        amount: u16,
    },
    ResourceDeposited { robot_id: RobotId, resource_type: ResourceType, amount: u16 },
    TickAdvanced { tick: u64 },
    SimulationStopped,
}

/// The data that the simulation hands to the display.
#[derive(Debug, Clone, PartialEq, Eq, Default)]
pub struct WorldSnapshot {
    pub tick: u64,
    pub base_position: Position,
    pub robots: Vec<RobotSnapshot>,
    pub resources: Vec<ResourceNode>,
    pub obstacles: Vec<Position>,
    pub collected_energy: u32,
    pub collected_crystals: u32,
    pub events: Vec<Event>,
}

/// Hooks the module into the rest of the crate.
pub fn register() {
}

} // verus!
