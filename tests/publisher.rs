use strymon_pubsub::publisher::{fan_out, Publisher, SubscriberEvent, SubscriberId};

/// A simulated transport: sender handle `i` delivers into mailbox `i`.
struct Mailboxes {
    boxes: Vec<Vec<Vec<u8>>>,
}

impl Mailboxes {
    fn new(n: usize) -> Mailboxes {
        Mailboxes { boxes: vec![Vec::new(); n] }
    }

    /// Runs one publish call as the application does: apply the polled
    /// events, serialize once if anyone listens, send to each recipient.
    /// Returns whether the batch was serialized.
    fn publish(
        &mut self,
        p: &mut Publisher<u32, usize>,
        events: Vec<SubscriberEvent<usize>>,
        items: &Vec<u32>,
    ) -> bool {
        let recipients = p.publish(events);
        if recipients.is_empty() {
            return false;
        }
        let payload = bincode::serialize(items).unwrap();
        for d in fan_out(&recipients, &payload) {
            let tx = *p.sender(d.to).unwrap();
            self.boxes[tx].push(d.payload);
        }
        true
    }

    fn decoded(&self, tx: usize) -> Vec<Vec<u32>> {
        self.boxes[tx].iter().map(|b| bincode::deserialize(b).unwrap()).collect()
    }
}

fn accepted(id: u64, tx: usize) -> SubscriberEvent<usize> {
    SubscriberEvent::Accepted(SubscriberId(id), tx)
}

#[test]
fn new_publisher_is_empty() {
    let p: Publisher<u32, usize> = Publisher::new();
    assert!(p.is_empty());
    assert_eq!(p.len(), 0);
    assert!(p.subscriber_ids().is_empty());
}

#[test]
fn empty_publisher_skips_serialization() {
    let mut p: Publisher<u32, usize> = Publisher::new();
    let mut net = Mailboxes::new(1);
    assert!(!net.publish(&mut p, vec![], &vec![1, 2]));
    assert!(p.publish(vec![]).is_empty());
}

#[test]
fn accept_then_receive() {
    let mut p: Publisher<u32, usize> = Publisher::new();
    let mut net = Mailboxes::new(1);
    assert!(net.publish(&mut p, vec![accepted(5, 0)], &vec![17]));
    assert_eq!(net.decoded(0), vec![vec![17]]);
}

#[test]
fn disconnect_removes() {
    let mut p: Publisher<u32, usize> = Publisher::new();
    let mut net = Mailboxes::new(2);
    net.publish(&mut p, vec![accepted(1, 0), accepted(2, 1)], &vec![10]);
    net.publish(&mut p, vec![SubscriberEvent::Disconnected(SubscriberId(1))], &vec![20]);
    net.publish(&mut p, vec![], &vec![30]);
    assert_eq!(net.decoded(0), vec![vec![10]]);
    assert_eq!(net.decoded(1), vec![vec![10], vec![20], vec![30]]);
    assert!(p.sender(SubscriberId(1)).is_none());
}

#[test]
fn error_event_removes() {
    let mut p: Publisher<u32, usize> = Publisher::new();
    p.publish(vec![accepted(3, 0)]);
    let r = p.publish(vec![SubscriberEvent::Error(SubscriberId(3), "reset".to_string())]);
    assert!(r.is_empty());
    assert!(p.is_empty());
}

#[test]
fn idempotent_removal() {
    let mut p: Publisher<u32, usize> = Publisher::new();
    p.publish(vec![accepted(1, 0), accepted(2, 1)]);
    let r = p.publish(vec![SubscriberEvent::Disconnected(SubscriberId(9))]);
    assert_eq!(r, vec![SubscriberId(1), SubscriberId(2)]);
    assert_eq!(p.sender(SubscriberId(1)), Some(&0));
    assert_eq!(p.sender(SubscriberId(2)), Some(&1));
    p.apply_event(SubscriberEvent::Disconnected(SubscriberId(1)));
    p.apply_event(SubscriberEvent::Disconnected(SubscriberId(1)));
    assert_eq!(p.subscriber_ids(), vec![SubscriberId(2)]);
}

#[test]
fn serialize_once_fan_out() {
    let mut p: Publisher<u32, usize> = Publisher::new();
    let mut net = Mailboxes::new(3);
    net.publish(&mut p, vec![accepted(7, 0), accepted(3, 1), accepted(5, 2)], &vec![4, 9]);
    for tx in 0..3 {
        assert_eq!(net.decoded(tx), vec![vec![4, 9]]);
    }
    assert_eq!(net.boxes[0][0], net.boxes[1][0]);
    assert_eq!(net.boxes[1][0], net.boxes[2][0]);
}

#[test]
fn fan_out_copies_payload() {
    let ids = vec![SubscriberId(2), SubscriberId(8)];
    let payload = vec![1u8, 2, 3];
    let out = fan_out(&ids, &payload);
    assert_eq!(out.len(), 2);
    assert_eq!(out[0].to, SubscriberId(2));
    assert_eq!(out[1].to, SubscriberId(8));
    assert_eq!(out[0].payload, payload);
    assert_eq!(out[1].payload, payload);
    assert!(fan_out(&Vec::new(), &payload).is_empty());
}

#[test]
fn poll_before_send_ordering() {
    let mut p: Publisher<u32, usize> = Publisher::new();
    let mut net = Mailboxes::new(2);
    net.publish(&mut p, vec![accepted(1, 0)], &vec![1]);
    net.publish(&mut p, vec![accepted(2, 1), SubscriberEvent::Disconnected(SubscriberId(1))], &vec![2]);
    assert_eq!(net.decoded(0), vec![vec![1]]);
    assert_eq!(net.decoded(1), vec![vec![2]]);
}

#[test]
fn recipients_in_increasing_order() {
    let mut p: Publisher<u32, usize> = Publisher::new();
    let r = p.publish(vec![accepted(30, 0), accepted(10, 1), accepted(20, 2)]);
    assert_eq!(r, vec![SubscriberId(10), SubscriberId(20), SubscriberId(30)]);
    assert_eq!(p.len(), 3);
}

#[test]
fn accept_overwrites_stale_entry() {
    let mut p: Publisher<u32, usize> = Publisher::new();
    let r = p.publish(vec![accepted(4, 0), accepted(4, 1)]);
    assert_eq!(r, vec![SubscriberId(4)]);
    assert_eq!(p.sender(SubscriberId(4)), Some(&1));
    assert_eq!(p.len(), 1);
}

#[test]
fn reaccept_after_disconnect_receives_again() {
    let mut p: Publisher<u32, usize> = Publisher::new();
    let mut net = Mailboxes::new(2);
    net.publish(&mut p, vec![accepted(1, 0), SubscriberEvent::Disconnected(SubscriberId(1))], &vec![1]);
    net.publish(&mut p, vec![accepted(1, 1)], &vec![2]);
    assert!(net.decoded(0).is_empty());
    assert_eq!(net.decoded(1), vec![vec![2]]);
}
