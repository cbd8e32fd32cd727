use rust_project::base::{BaseStats, BaseStorage, DepositError, DepositReceipt};
use rust_project::domain::{Position, ResourceType, RobotId, WorldSnapshot};

#[test]
fn new_storage_is_empty() {
    let storage = BaseStorage::new();

    assert_eq!(storage.energy(), 0);
    assert_eq!(storage.crystals(), 0);
    assert_eq!(storage.stats(), BaseStats { energy: 0, crystals: 0 });
}

#[test]
fn deposits_add_to_their_own_kind() {
    let mut storage = BaseStorage::new();

    let first = storage.deposit(RobotId(4), ResourceType::Energy, 30);
    let second = storage.deposit(RobotId(5), ResourceType::Crystal, 12);
    let third = storage.deposit(RobotId(4), ResourceType::Energy, 8);

    assert_eq!(
        first,
        Ok(DepositReceipt {
            robot_id: RobotId(4),
            resource_type: ResourceType::Energy,
            amount: 30,
            total_energy: 30,
            total_crystals: 0,
        })
    );
    assert_eq!(
        second,
        Ok(DepositReceipt {
            robot_id: RobotId(5),
            resource_type: ResourceType::Crystal,
            amount: 12,
            total_energy: 30,
            total_crystals: 12,
        })
    );
    assert_eq!(third.unwrap().total_energy, 38);
    assert_eq!(storage.stats(), BaseStats { energy: 38, crystals: 12 });
}

#[test]
fn empty_deposit_is_refused() {
    let mut storage = BaseStorage::new();
    storage.deposit(RobotId(1), ResourceType::Crystal, 5).unwrap();

    assert_eq!(
        storage.deposit(RobotId(1), ResourceType::Energy, 0),
        Err(DepositError::EmptyAmount)
    );
    assert_eq!(storage.stats(), BaseStats { energy: 0, crystals: 5 });
}

#[test]
fn deposits_of_both_kinds_commute() {
    let mut a = BaseStorage::new();
    let mut b = BaseStorage::new();

    a.deposit(RobotId(1), ResourceType::Energy, 7).unwrap();
    a.deposit(RobotId(1), ResourceType::Crystal, 9).unwrap();
    b.deposit(RobotId(1), ResourceType::Crystal, 9).unwrap();
    b.deposit(RobotId(1), ResourceType::Energy, 7).unwrap();

    assert_eq!(a.stats(), b.stats());
}

#[test]
fn stock_is_written_into_the_snapshot() {
    let mut storage = BaseStorage::new();
    storage.deposit(RobotId(2), ResourceType::Energy, 40).unwrap();
    storage.deposit(RobotId(2), ResourceType::Crystal, 3).unwrap();
    let mut snapshot = WorldSnapshot::default();
    snapshot.tick = 9;
    snapshot.base_position = Position::new(2, 2);

    storage.apply_to_snapshot(&mut snapshot);

    assert_eq!(snapshot.collected_energy, 40);
    assert_eq!(snapshot.collected_crystals, 3);
    assert_eq!(snapshot.tick, 9);
    assert_eq!(snapshot.base_position, Position::new(2, 2));
}
