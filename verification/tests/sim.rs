use std::time::Duration;

use rust_project::comms::{ActorId, Envelope, Message, Recipient, StatusMessage};
use rust_project::domain::{Event, Position, ResourceType, RobotId, RobotKind, RobotState, Tile};
use rust_project::map::{Grid, ResourceParams};
use rust_project::robots::{Collector, Scout};
use rust_project::sim::{bootstrap, Simulation, TICK_MILLIS};

#[test]
fn simulation_uses_a_fixed_tick() {
    let grid = Grid::new(5, 5);
    let mut sim = Simulation::new(grid);

    assert_eq!(sim.tick(), 0);
    assert_eq!(sim.tick_duration(), Duration::from_millis(200));

    let snapshot = sim.advance_tick();

    assert_eq!(sim.tick(), 1);
    assert_eq!(snapshot.tick, 1);
    assert_eq!(snapshot.events, vec![Event::TickAdvanced { tick: 1 }]);
    assert_eq!(sim.messages().len(), 1);
}

#[test]
fn snapshot_contains_robots_and_base_state() {
    let mut grid = Grid::new(7, 7);
    let base = grid.place_base().unwrap();
    let mut sim = Simulation::new(grid);

    sim.add_scout(Scout::new(RobotId(1), Position::new(3, 2)));
    sim.add_collector(Collector::new(RobotId(2), Position::new(3, 4)));

    let snapshot = sim.snapshot();

    assert_eq!(snapshot.tick, 0);
    assert_eq!(snapshot.base_position, base);
    assert_eq!(snapshot.robots.len(), 2);
    assert_eq!(snapshot.collected_energy, 0);
    assert_eq!(snapshot.collected_crystals, 0);
}

#[test]
fn each_tick_replaces_the_announcement() {
    let mut sim = Simulation::new(Grid::new(3, 3));

    sim.advance_tick();
    let snapshot = sim.advance_tick();

    assert_eq!(TICK_MILLIS, 200);
    assert_eq!(snapshot.tick, 2);
    assert_eq!(snapshot.events, vec![Event::TickAdvanced { tick: 2 }]);
    assert_eq!(
        sim.messages(),
        &[Envelope::new(
            ActorId::Simulation,
            Recipient::Broadcast,
            Message::Status(StatusMessage::TickAdvanced { tick: 2 }),
        )]
    );
}

#[test]
fn snapshot_lists_scouts_before_collectors_and_the_deposits() {
    let mut grid = Grid::with_resources(6, 6, ResourceParams::new(3, 2, 1));
    grid.set_tile(Position::new(0, 5), Tile::Obstacle).unwrap();
    let deposits = grid.resources().to_vec();
    let mut sim = Simulation::new(grid);

    sim.add_collector(Collector::new(RobotId(8), Position::new(1, 1)));
    sim.add_scout(Scout::new(RobotId(9), Position::new(2, 2)));

    let snapshot = sim.snapshot();

    assert_eq!(snapshot.base_position, Position::new(0, 0));
    assert_eq!(snapshot.robots[0].kind, RobotKind::Scout);
    assert_eq!(snapshot.robots[0].state, RobotState::Exploring);
    assert_eq!(snapshot.robots[1].kind, RobotKind::Collector);
    assert_eq!(snapshot.robots[1].id, RobotId(8));
    assert_eq!(snapshot.resources, deposits);
    // obstacles come from what the robots know, not from the grid
    assert!(snapshot.obstacles.is_empty());
    assert_eq!(sim.scouts().len(), 1);
    assert_eq!(sim.collectors().len(), 1);
    assert_eq!(sim.base().energy(), 0);
    assert!(sim.knowledge().known_obstacles().is_empty());
    assert!(snapshot
        .resources
        .iter()
        .all(|r| r.resource_type == ResourceType::Energy || r.resource_type == ResourceType::Crystal));
}

#[test]
fn bootstrap_describes_the_program() {
    let app = bootstrap();

    assert_eq!(app.module_count, 8);
    assert_eq!(app.entrypoint, "src/main.rs");
}

#[test]
fn discoveries_through_the_simulation_handle_reach_its_snapshot() {
    let mut grid = Grid::new(4, 4);
    grid.set_tile(Position::new(2, 1), Tile::Obstacle).unwrap();
    let view = grid.clone();
    let sim = Simulation::new(grid);
    let mut scout = Scout::new(RobotId(3), Position::new(1, 1));

    let reports = scout.scan(&view, &sim.knowledge());

    assert_eq!(reports.len(), 1);
    assert_eq!(sim.snapshot().obstacles, vec![Position::new(2, 1)]);
}
