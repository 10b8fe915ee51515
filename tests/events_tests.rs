use triad::events::{get_priority, EventQueue, MessageKind};

#[test]
fn message_priorities() {
    assert_eq!(get_priority(MessageKind::QuantumEvent), 255);
    assert_eq!(get_priority(MessageKind::QuantumAck), 200);
    assert_eq!(get_priority(MessageKind::ProposeTransaction), 100);
    assert_eq!(get_priority(MessageKind::TransactionVote), 100);
    assert_eq!(get_priority(MessageKind::MetricsUpdate), 50);
    assert_eq!(get_priority(MessageKind::DiscoverPeers), 50);
}

#[test]
fn queue_hands_out_by_priority_then_arrival() {
    let mut q: EventQueue<&str> = EventQueue::new();
    assert_eq!(q.pop(), None);
    q.push(100, "proposal-1");
    q.push(255, "transfer-1");
    q.push(200, "ack");
    q.push(255, "transfer-2");
    q.push(100, "proposal-2");
    assert_eq!(q.len(), 5);
    assert_eq!(q.pop(), Some((255, "transfer-1")));
    assert_eq!(q.pop(), Some((255, "transfer-2")));
    assert_eq!(q.pop(), Some((200, "ack")));
    assert_eq!(q.pop(), Some((100, "proposal-1")));
    assert_eq!(q.pop(), Some((100, "proposal-2")));
    assert_eq!(q.pop(), None);
}
