use rust_project::domain::{Position, ResourceNode, ResourceType};
use rust_project::knowledge::SharedKnowledge;

#[test]
fn depleted_resources_are_not_valid_targets() {
    let knowledge = SharedKnowledge::new();
    let pos = Position::new(5, 6);

    knowledge.record_resource(ResourceNode::new(pos, ResourceType::Crystal, 70));
    knowledge.mark_resource_depleted(pos);

    assert!(knowledge.is_resource_depleted(pos));
    assert!(knowledge.resource_at(pos).is_none());
    assert!(knowledge.valid_resource_targets().is_empty());
    assert!(!knowledge.record_resource(ResourceNode::new(pos, ResourceType::Crystal, 120)));
}

#[test]
fn discoveries_are_visible_from_shared_clones() {
    let knowledge = SharedKnowledge::new();
    let robot_view = knowledge.clone();
    let base_view = knowledge.clone();

    robot_view.record_obstacle(Position::new(3, 4));
    robot_view.record_resource(ResourceNode::new(
        Position::new(8, 2),
        ResourceType::Energy,
        90,
    ));

    assert!(base_view.is_obstacle_known(Position::new(3, 4)));
    assert_eq!(
        base_view
            .resource_at(Position::new(8, 2))
            .unwrap()
            .remaining,
        90
    );
}

#[test]
fn exhaustion_marked_through_a_clone_reaches_the_original() {
    let knowledge = SharedKnowledge::new();
    let pos = Position::new(6, 1);
    knowledge.record_resource(ResourceNode::new(pos, ResourceType::Crystal, 12));

    let collector_view = knowledge.clone();
    collector_view.mark_resource_depleted(pos);

    assert!(knowledge.is_resource_depleted(pos));
    assert_eq!(knowledge.resource_at(pos), None);
    assert!(knowledge.valid_resource_targets().is_empty());
    assert!(knowledge.known_resources().is_empty());
}

#[test]
fn a_reading_gives_back_what_was_filed() {
    let knowledge = SharedKnowledge::new();
    let pos = Position::new(1, 1);

    assert!(knowledge.record_resource(ResourceNode::new(pos, ResourceType::Energy, 100)));
    assert_eq!(
        knowledge.resource_at(pos),
        Some(ResourceNode::new(pos, ResourceType::Energy, 100))
    );
    assert_eq!(knowledge.valid_resource_targets().len(), 1);
    assert!(knowledge.record_resource(ResourceNode::new(pos, ResourceType::Energy, 40)));
    assert_eq!(knowledge.resource_at(pos).unwrap().remaining, 40);
    assert_eq!(knowledge.known_resources().len(), 1);
}

#[test]
fn an_empty_report_marks_the_deposit_exhausted() {
    let knowledge = SharedKnowledge::new();
    let pos = Position::new(2, 9);

    knowledge.record_resource(ResourceNode::new(pos, ResourceType::Crystal, 30));

    assert!(!knowledge.record_resource(ResourceNode::new(pos, ResourceType::Crystal, 0)));
    assert!(knowledge.is_resource_depleted(pos));
    assert_eq!(knowledge.resource_at(pos), None);
    assert!(!knowledge.record_resource(ResourceNode::new(pos, ResourceType::Crystal, 10)));
}

#[test]
fn marking_answers_the_forgotten_entry() {
    let knowledge = SharedKnowledge::new();
    let pos = Position::new(4, 4);
    let node = ResourceNode::new(pos, ResourceType::Energy, 55);

    knowledge.record_resource(node);

    assert_eq!(knowledge.mark_resource_depleted(pos), Some(node));
    assert_eq!(knowledge.mark_resource_depleted(pos), None);
    assert_eq!(knowledge.mark_resource_depleted(Position::new(0, 0)), None);
    assert!(knowledge.is_resource_depleted(Position::new(0, 0)));
}

#[test]
fn obstacles_are_listed_once() {
    let knowledge = SharedKnowledge::new();

    knowledge.record_obstacle(Position::new(1, 2));
    knowledge.record_obstacle(Position::new(1, 2));
    knowledge.record_obstacle(Position::new(2, 1));

    assert_eq!(knowledge.known_obstacles().len(), 2);
    assert!(!knowledge.is_obstacle_known(Position::new(0, 0)));
    let snapshot = knowledge.snapshot();
    assert_eq!(snapshot.obstacles.len(), 2);
    assert!(snapshot.resources.is_empty());
    assert!(snapshot.depleted_resources.is_empty());
}
