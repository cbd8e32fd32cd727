use rust_project::comms::{
    channel, ActorId, DiscoveryMessage, Envelope, Message, Recipient, ShutdownMessage,
};
use rust_project::domain::{Position, ResourceNode, ResourceType, RobotId};

#[test]
fn can_build_a_broadcast_message() {
    let resource = ResourceNode::new(Position::new(4, 7), ResourceType::Energy, 120);
    let envelope = Envelope::broadcast(
        ActorId::Robot(RobotId(1)),
        Message::Discovery(DiscoveryMessage::ResourceFound {
            robot_id: RobotId(1),
            resource,
        }),
    );

    assert_eq!(envelope.recipient, Recipient::Broadcast);
}

#[test]
fn channel_transports_the_shared_contract() {
    let (sender, receiver) = channel();
    let message = Envelope::new(
        ActorId::Simulation,
        Recipient::Base,
        Message::Shutdown(ShutdownMessage::Requested),
    );

    sender.send(message.clone()).unwrap();

    assert_eq!(receiver.recv().unwrap(), message);
}

#[test]
fn broadcast_keeps_sender_and_message() {
    let message = Message::Shutdown(ShutdownMessage::Acknowledged { actor: ActorId::Base });
    let envelope = Envelope::broadcast(ActorId::Base, message);

    assert_eq!(envelope.sender, ActorId::Base);
    assert_eq!(envelope.message, message);
    assert_eq!(
        envelope,
        Envelope::new(ActorId::Base, Recipient::Broadcast, message)
    );
}

#[test]
fn channel_keeps_the_order_of_messages() {
    let (sender, receiver) = channel();
    let first = Envelope::new(
        ActorId::Base,
        Recipient::Simulation,
        Message::Shutdown(ShutdownMessage::Requested),
    );
    let second = Envelope::broadcast(
        ActorId::Robot(RobotId(3)),
        Message::Discovery(DiscoveryMessage::ObstacleFound {
            robot_id: RobotId(3),
            position: Position::new(1, 2),
        }),
    );

    sender.send(first).unwrap();
    sender.send(second).unwrap();

    assert_eq!(receiver.recv().unwrap(), first);
    assert_eq!(receiver.recv().unwrap(), second);
}
