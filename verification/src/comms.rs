//! The message contract between robots, the base and the simulation.

use std::sync::mpsc::{Receiver, Sender};

use vstd::prelude::*;

use crate::domain::{Position, ResourceNode, ResourceType, RobotId, RobotState};

verus! {

/// Who sends a message.
#[derive(Debug, Clone, Copy, PartialEq, Eq, Structural, Hash)]
pub enum ActorId {
    Simulation,
    Base,
    Robot(RobotId),
}

/// To whom a message goes.
#[derive(Debug, Clone, Copy, PartialEq, Eq, Structural, Hash)]
pub enum Recipient {
    Simulation,
    Base,
    Robot(RobotId),
    Broadcast,
}

/// The carrier of every message.
#[derive(Debug, Clone, Copy, PartialEq, Eq, Structural)]
pub struct Envelope {
    pub sender: ActorId,
    pub recipient: Recipient,
    pub message: Message,
}

impl Envelope {
    pub fn new(sender: ActorId, recipient: Recipient, message: Message) -> (e: Self)
        ensures
            e == (Envelope { sender, recipient, message }),
    {
        Envelope { sender, recipient, message }
    }

    /// A message for every actor.
    pub fn broadcast(sender: ActorId, message: Message) -> (e: Self)
        ensures
            e == (Envelope { sender, recipient: Recipient::Broadcast, message }),
    {
        Self::new(sender, Recipient::Broadcast, message)
    }
}

/// The families of messages.
#[derive(Debug, Clone, Copy, PartialEq, Eq, Structural)]
pub enum Message {
    Discovery(DiscoveryMessage),
    Collection(CollectionMessage),
    Base(BaseMessage),
    Status(StatusMessage),
    Shutdown(ShutdownMessage),
}

/// Sent when a robot finds something on the map.
#[derive(Debug, Clone, Copy, PartialEq, Eq, Structural)]
pub enum DiscoveryMessage {
    ResourceFound { robot_id: RobotId, resource: ResourceNode },
    ObstacleFound { robot_id: RobotId, position: Position },
}

/// Sent while a deposit is harvested.
#[derive(Debug, Clone, Copy, PartialEq, Eq, Structural)]
pub enum CollectionMessage {
    ResourceCollected {
        robot_id: RobotId,
        resource_type: ResourceType,
        position: Position,
        amount: u16,
    },
    ResourceDepleted { robot_id: RobotId, position: Position },
}

/// Exchanged with the base about deposits and its stock.
#[derive(Debug, Clone, Copy, PartialEq, Eq, Structural)]
pub enum BaseMessage {
    DepositRequested { robot_id: RobotId, resource_type: ResourceType, amount: u16 },
    DepositConfirmed {
        robot_id: RobotId,
        resource_type: ResourceType,
        amount: u16,
        total_energy: u32,
        total_crystals: u32,
    },
}

/// Progress reports.
#[derive(Debug, Clone, Copy, PartialEq, Eq, Structural)]
pub enum StatusMessage {
    RobotStateUpdated {
        robot_id: RobotId,
        state: RobotState,
        position: Position,
        carrying: Option<ResourceType>,
    },
    BaseStateUpdated { total_energy: u32, total_crystals: u32 },
    TickAdvanced { tick: u64 },
}

/// For a coordinated stop.
#[derive(Debug, Clone, Copy, PartialEq, Eq, Structural)]
pub enum ShutdownMessage {
    Requested,
    Acknowledged { actor: ActorId },
}

/// The sending half of a standard library channel.
#[verifier::external_type_specification]
#[verifier::external_body]
#[verifier::reject_recursive_types(T)]
pub struct ExSender<T>(Sender<T>);

/// The receiving half of a standard library channel.
#[verifier::external_type_specification]
#[verifier::external_body]
#[verifier::reject_recursive_types(T)]
pub struct ExReceiver<T>(Receiver<T>);

/// `std::sync::mpsc::channel`: a fresh pair of connected ends. Nothing is
/// stated of them; they are opaque here.
pub assume_specification<T>[ std::sync::mpsc::channel::<T> ]() -> (ends: (Sender<T>, Receiver<T>));

pub type CommSender = Sender<Envelope>;

pub type CommReceiver = Receiver<Envelope>;

/// A standard channel for envelopes.
pub fn channel() -> (CommSender, CommReceiver) {
    std::sync::mpsc::channel()
}

/// Hooks the module into the rest of the crate.
pub fn register() {
}

} // verus!
