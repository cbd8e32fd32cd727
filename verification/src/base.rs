//! The base: the stock of harvested resources.

use vstd::prelude::*;

use crate::domain::{ResourceType, RobotId, WorldSnapshot};

verus! {

/// The stock of each resource.
#[derive(Debug, Clone, Copy, PartialEq, Eq, Structural, Default)]
pub struct BaseStats {
    pub energy: u32,
    pub crystals: u32,
}

/// The answer to an accepted deposit: what was added and the new totals.
#[derive(Debug, Clone, Copy, PartialEq, Eq, Structural)]
pub struct DepositReceipt {
    pub robot_id: RobotId,
    pub resource_type: ResourceType,
    pub amount: u16,
    pub total_energy: u32,
    pub total_crystals: u32,
}

#[derive(Debug, Clone, Copy, PartialEq, Eq, Structural)]
pub enum DepositError {
    EmptyAmount,
}

/// The stock after adding `amount` of `resource_type`.
pub open spec fn stats_after_deposit(s: BaseStats, resource_type: ResourceType, amount: u16) -> BaseStats {
    match resource_type {
        ResourceType::Energy => BaseStats { energy: (s.energy + amount) as u32, ..s },
        ResourceType::Crystal => BaseStats { crystals: (s.crystals + amount) as u32, ..s },
    }
}

/// A deposit of `amount` fits in the stock of its kind.
pub open spec fn deposit_fits(s: BaseStats, resource_type: ResourceType, amount: u16) -> bool {
    match resource_type {
        ResourceType::Energy => s.energy + amount <= u32::MAX,
        ResourceType::Crystal => s.crystals + amount <= u32::MAX,
    }
}

/// The base storage.
#[derive(Debug, Clone, PartialEq, Eq, Default)]
pub struct BaseStorage {
    energy: u32,
    crystals: u32,
}

impl BaseStorage {
    pub closed spec fn view(&self) -> BaseStats {
        BaseStats { energy: self.energy, crystals: self.crystals }
    }

    /// An empty stock.
    pub fn new() -> (b: Self)
        ensures
            b@ == (BaseStats { energy: 0, crystals: 0 }),
    {
        BaseStorage { energy: 0, crystals: 0 }
    }

    pub fn energy(&self) -> (r: u32)
        ensures
            r == self@.energy,
    {
        self.energy
    }

    pub fn crystals(&self) -> (r: u32)
        ensures
            r == self@.crystals,
    {
        self.crystals
    }

    pub fn stats(&self) -> (s: BaseStats)
        ensures
            s == self@,
    {
        BaseStats { energy: self.energy, crystals: self.crystals }
    }

    /// Adds `amount` of `resource_type` to the stock and answers the new
    /// totals; an empty deposit is refused and changes nothing. The stock of
    /// the kind must have room for the amount.
    pub fn deposit(&mut self, robot_id: RobotId, resource_type: ResourceType, amount: u16) -> (r:
        Result<DepositReceipt, DepositError>)
        requires
            amount == 0 || deposit_fits(old(self)@, resource_type, amount),
        ensures
            amount == 0 ==> r == Err::<DepositReceipt, DepositError>(DepositError::EmptyAmount)
                && final(self)@ == old(self)@,
            amount != 0 ==> final(self)@ == stats_after_deposit(old(self)@, resource_type, amount)
                && r == Ok::<DepositReceipt, DepositError>(
                DepositReceipt {
                    robot_id,
                    resource_type,
                    amount,
                    total_energy: final(self)@.energy,
                    total_crystals: final(self)@.crystals,
                },
            ),
    {
        if amount == 0 {
            return Err(DepositError::EmptyAmount);
        }
        match resource_type {
            ResourceType::Energy => self.energy = self.energy + amount as u32,
            ResourceType::Crystal => self.crystals = self.crystals + amount as u32,
        }
        Ok(
            DepositReceipt {
                robot_id,
                resource_type,
                amount,
                total_energy: self.energy,
                total_crystals: self.crystals,
            },
        )
    }

    /// Writes the stock into a world snapshot, leaving the rest of it as it is.
    pub fn apply_to_snapshot(&self, snapshot: &mut WorldSnapshot)
        ensures
            final(snapshot).collected_energy == self@.energy,
            final(snapshot).collected_crystals == self@.crystals,
            final(snapshot).tick == old(snapshot).tick,
            final(snapshot).base_position == old(snapshot).base_position,
            final(snapshot).robots@ == old(snapshot).robots@,
            final(snapshot).resources@ == old(snapshot).resources@,
            final(snapshot).obstacles@ == old(snapshot).obstacles@,
            final(snapshot).events@ == old(snapshot).events@,
    {
        snapshot.collected_energy = self.energy;
        snapshot.collected_crystals = self.crystals;
    }
}

/// The stock only grows: an accepted deposit raises the stock of its own
/// kind by the amount and leaves the other as it is; deposits of different
/// kinds may come in either order.
pub proof fn law_deposits_add_up(
    s: BaseStats,
    t1: ResourceType,
    a1: u16,
    t2: ResourceType,
    a2: u16,
)
    requires
        deposit_fits(s, t1, a1),
        deposit_fits(stats_after_deposit(s, t1, a1), t2, a2),
    ensures
        stats_after_deposit(s, t1, a1).energy + stats_after_deposit(s, t1, a1).crystals == s.energy
            + s.crystals + a1,
        stats_after_deposit(s, t1, a1).energy >= s.energy,
        stats_after_deposit(s, t1, a1).crystals >= s.crystals,
        t1 != t2 ==> deposit_fits(s, t2, a2) && deposit_fits(stats_after_deposit(s, t2, a2), t1, a1)
            && stats_after_deposit(stats_after_deposit(s, t1, a1), t2, a2) == stats_after_deposit(
            stats_after_deposit(s, t2, a2),
            t1,
            a1,
        ),
{
}

/// Hooks the module into the rest of the crate.
pub fn register() {
}

} // verus!
