use rust_project::comms::{ActorId, DiscoveryMessage, Envelope, Message};
use rust_project::domain::{Position, ResourceNode, ResourceType, RobotId, RobotKind, RobotState, Tile};
use rust_project::knowledge::SharedKnowledge;
use rust_project::map::Grid;
use rust_project::robots::Scout;

#[test]
fn scout_moves_and_remembers_visited_tiles() {
    let grid = Grid::new(4, 4);
    let knowledge = SharedKnowledge::new();
    let mut scout = Scout::new(RobotId(1), Position::new(1, 1));

    let moved = scout.advance(&grid, &knowledge);

    assert_eq!(moved, true);
    assert_ne!(scout.position(), Position::new(1, 1));
    assert_eq!(scout.has_visited(Position::new(1, 1)), true);
    assert_eq!(scout.has_visited(scout.position()), true);
    assert_eq!(scout.visited_positions().len(), 2);
}

#[test]
fn scout_avoids_obstacles_known_by_the_shared_store() {
    let grid = Grid::new(5, 5);
    let knowledge = SharedKnowledge::new();
    let blocked = Position::new(2, 1);
    let mut scout = Scout::new(RobotId(2), Position::new(1, 1));

    knowledge.record_obstacle(blocked);

    let moved = scout.advance(&grid, &knowledge);

    assert_eq!(moved, true);
    assert_ne!(scout.position(), blocked);
}

#[test]
fn scout_snapshot_never_carries_resource() {
    let scout = Scout::new(RobotId(5), Position::new(3, 3));
    let snapshot = scout.snapshot();

    assert_eq!(snapshot.id, RobotId(5));
    assert_eq!(snapshot.kind, RobotKind::Scout);
    assert_eq!(snapshot.state, RobotState::Exploring);
    assert_eq!(snapshot.carrying, None);
}

#[test]
fn scout_prefers_east_then_unvisited_tiles() {
    let grid = Grid::new(3, 1);
    let knowledge = SharedKnowledge::new();
    let mut scout = Scout::new(RobotId(6), Position::new(0, 0));

    assert!(scout.advance(&grid, &knowledge));
    assert_eq!(scout.position(), Position::new(1, 0));
    assert!(scout.advance(&grid, &knowledge));
    assert_eq!(scout.position(), Position::new(2, 0));
    // only visited tiles are left: the first enterable one, west
    assert!(scout.advance(&grid, &knowledge));
    assert_eq!(scout.position(), Position::new(1, 0));
    assert_eq!(scout.visited_positions(), &[Position::new(0, 0), Position::new(1, 0), Position::new(2, 0)]);
}

#[test]
fn boxed_in_scout_stays_put() {
    let mut grid = Grid::new(2, 2);
    grid.set_tile(Position::new(1, 0), Tile::Obstacle).unwrap();
    grid.set_tile(Position::new(0, 1), Tile::Obstacle).unwrap();
    let knowledge = SharedKnowledge::new();
    let mut scout = Scout::new(RobotId(7), Position::new(0, 0));

    assert!(!scout.advance(&grid, &knowledge));
    assert_eq!(scout.position(), Position::new(0, 0));
    assert_eq!(scout.visited_positions().len(), 1);
    assert_eq!(scout.id(), RobotId(7));
}

#[test]
fn scan_reports_each_discovery_once() {
    let mut grid = Grid::new(4, 4);
    let deposit = Position::new(1, 2);
    grid.set_tile(Position::new(2, 1), Tile::Obstacle).unwrap();
    grid.set_tile(deposit, Tile::Resource(ResourceType::Energy)).unwrap();
    let knowledge = SharedKnowledge::new();
    let mut scout = Scout::new(RobotId(8), Position::new(1, 1));

    let first = scout.scan(&grid, &knowledge);

    assert_eq!(
        first,
        vec![
            Envelope::broadcast(
                ActorId::Robot(RobotId(8)),
                Message::Discovery(DiscoveryMessage::ObstacleFound {
                    robot_id: RobotId(8),
                    position: Position::new(2, 1),
                }),
            ),
            Envelope::broadcast(
                ActorId::Robot(RobotId(8)),
                Message::Discovery(DiscoveryMessage::ResourceFound {
                    robot_id: RobotId(8),
                    resource: ResourceNode::new(deposit, ResourceType::Energy, 1),
                }),
            ),
        ]
    );
    assert!(knowledge.is_obstacle_known(Position::new(2, 1)));
    assert_eq!(
        knowledge.resource_at(deposit),
        Some(ResourceNode::new(deposit, ResourceType::Energy, 1))
    );

    let second = scout.scan(&grid, &knowledge);
    assert!(second.is_empty());
}

#[test]
fn tick_scans_then_moves() {
    let mut grid = Grid::new(3, 3);
    grid.set_tile(Position::new(2, 1), Tile::Obstacle).unwrap();
    let knowledge = SharedKnowledge::new();
    let mut scout = Scout::new(RobotId(9), Position::new(1, 1));

    let report = scout.tick(&grid, &knowledge);

    assert_eq!(report.discoveries.len(), 1);
    assert!(report.moved);
    // east is blocked, so the scout goes south
    assert_eq!(scout.position(), Position::new(1, 2));
}
