use rust_project::domain::{
    Position, ResourceNode, ResourceType, RobotId, RobotKind, RobotSnapshot, RobotState,
    WorldSnapshot,
};
use rust_project::ui::{display_lines, map_lines};

#[test]
fn map_lines_put_elements_at_their_position() {
    let snapshot = WorldSnapshot {
        tick: 0,
        base_position: Position::new(1, 1),
        robots: vec![RobotSnapshot {
            id: RobotId(1),
            kind: RobotKind::Scout,
            position: Position::new(3, 0),
            state: RobotState::Exploring,
            carrying: None,
        }],
        resources: vec![
            ResourceNode::new(Position::new(2, 1), ResourceType::Energy, 10),
            ResourceNode::new(Position::new(0, 2), ResourceType::Crystal, 5),
        ],
        obstacles: vec![Position::new(0, 0)],
        collected_energy: 0,
        collected_crystals: 0,
        events: Vec::new(),
    };

    let lines = map_lines(&snapshot);

    assert_eq!(lines[0].chars().nth(0), Some('#'));
    assert_eq!(lines[0].chars().nth(3), Some('S'));
    assert_eq!(lines[1].chars().nth(1), Some('B'));
    assert_eq!(lines[1].chars().nth(2), Some('E'));
    assert_eq!(lines[2].chars().nth(0), Some('C'));
}

#[test]
fn robot_is_drawn_above_the_base() {
    let snapshot = WorldSnapshot {
        tick: 0,
        base_position: Position::new(2, 2),
        robots: vec![RobotSnapshot {
            id: RobotId(2),
            kind: RobotKind::Collector,
            position: Position::new(2, 2),
            state: RobotState::Idle,
            carrying: None,
        }],
        resources: Vec::new(),
        obstacles: Vec::new(),
        collected_energy: 0,
        collected_crystals: 0,
        events: Vec::new(),
    };

    let lines = map_lines(&snapshot);

    assert_eq!(lines[2].chars().nth(2), Some('R'));
}

#[test]
fn whole_map_is_drawn_row_by_row() {
    let snapshot = WorldSnapshot {
        tick: 0,
        base_position: Position::new(0, 0),
        robots: Vec::new(),
        resources: vec![ResourceNode::new(Position::new(2, 1), ResourceType::Crystal, 3)],
        obstacles: vec![Position::new(2, 1), Position::new(-1, 0)],
        collected_energy: 0,
        collected_crystals: 0,
        events: Vec::new(),
    };

    let lines = map_lines(&snapshot);

    // the deposit covers the obstacle; a negative position is not drawn
    assert_eq!(lines, vec!["B..".to_string(), "..C".to_string()]);
}

#[test]
fn snapshot_with_nothing_draws_one_cell() {
    let mut snapshot = WorldSnapshot::default();
    snapshot.base_position = Position::new(-3, -3);

    assert_eq!(map_lines(&snapshot), vec![".".to_string()]);
}

#[test]
fn display_starts_with_the_tick_and_the_stock() {
    let snapshot = WorldSnapshot {
        tick: 42,
        base_position: Position::new(1, 0),
        robots: Vec::new(),
        resources: Vec::new(),
        obstacles: Vec::new(),
        collected_energy: 1205,
        collected_crystals: 0,
        events: Vec::new(),
    };

    let lines = display_lines(&snapshot);

    assert_eq!(
        lines,
        vec![
            "Tick: 42".to_string(),
            "Energie: 1205 | Cristaux: 0".to_string(),
            String::new(),
            ".B".to_string(),
        ]
    );
}

#[test]
fn display_writes_large_and_zero_counts_in_full() {
    let mut snapshot = WorldSnapshot::default();
    snapshot.tick = u64::MAX;
    snapshot.collected_energy = 0;
    snapshot.collected_crystals = u32::MAX;

    let lines = display_lines(&snapshot);

    assert_eq!(lines[0], "Tick: 18446744073709551615");
    assert_eq!(lines[1], "Energie: 0 | Cristaux: 4294967295");
}
