use psmsg::broker::{Broker, BrokerAction, BrokerEvent};
use psmsg::messages::MsgPublish;

fn strings(v: &[&str]) -> Vec<String> {
    v.iter().map(|s| s.to_string()).collect()
}

fn sorted(mut v: Vec<usize>) -> Vec<usize> {
    v.sort();
    v
}

fn recipients_of(b: &Broker, topic: &str) -> Vec<usize> {
    sorted(b.publish(&topic.to_string(), Vec::new()).0)
}

#[test]
fn a_new_broker_sends_to_nobody() {
    let b = Broker::new("s1");
    assert!(recipients_of(&b, "t1").is_empty());
    let (all, line) = b.publish_all(b"x".to_vec());
    assert!(all.is_empty());
    assert_eq!(line, MsgPublish::encode("s1", "*", b"x".to_vec()));
}

#[test]
fn a_peer_connects_once() {
    let mut b = Broker::new("s1");
    assert!(b.new_peer(7));
    assert!(!b.new_peer(7));
    assert!(b.is_connected(7));
    assert!(!b.is_connected(8));
    assert_eq!(b.publish_all(Vec::new()).0, vec![7]);
}

#[test]
fn publish_reaches_connected_subscribers_of_the_topic() {
    let mut b = Broker::new("s5");
    b.new_peer(1);
    b.new_peer(2);
    b.new_peer(3);
    b.subscribe(1, strings(&["t1", "t2"]));
    b.subscribe(2, strings(&["t2"]));
    let (to, line) = b.publish(&"t2".to_string(), b"0".to_vec());
    assert_eq!(sorted(to), vec![1, 2]);
    assert_eq!(line, MsgPublish::encode("s5", "t2", b"0".to_vec()));
    assert_eq!(recipients_of(&b, "t1"), vec![1]);
    assert!(recipients_of(&b, "t3").is_empty());
    assert_eq!(sorted(b.publish_all(Vec::new()).0), vec![1, 2, 3]);
}

#[test]
fn subscribing_twice_sends_once() {
    let mut b = Broker::new("s");
    b.new_peer(1);
    b.subscribe(1, strings(&["t1", "t1"]));
    b.subscribe(1, strings(&["t1"]));
    assert_eq!(b.publish(&"t1".to_string(), Vec::new()).0, vec![1]);
}

#[test]
fn a_subscriber_that_is_not_connected_receives_nothing() {
    let mut b = Broker::new("s");
    b.subscribe(4, strings(&["t1"]));
    assert!(recipients_of(&b, "t1").is_empty());
    b.new_peer(4);
    assert_eq!(recipients_of(&b, "t1"), vec![4]);
}

#[test]
fn unsubscribe_undoes_subscribe() {
    let mut b = Broker::new("s");
    b.new_peer(1);
    b.new_peer(2);
    b.subscribe(2, strings(&["t1"]));
    b.subscribe(1, strings(&["t1", "t2"]));
    b.unsubscribe(1, strings(&["t1", "t2"]));
    assert_eq!(recipients_of(&b, "t1"), vec![2]);
    assert!(recipients_of(&b, "t2").is_empty());
    b.unsubscribe(1, strings(&["never"]));
    b.unsubscribe(9, strings(&["t1"]));
    assert_eq!(recipients_of(&b, "t1"), vec![2]);
}

#[test]
fn a_disconnected_peer_receives_nothing() {
    let mut b = Broker::new("s");
    b.new_peer(1);
    b.new_peer(2);
    b.subscribe(1, strings(&["t1", "t2"]));
    b.subscribe(2, strings(&["t1"]));
    b.disconnect(1);
    assert!(!b.is_connected(1));
    assert_eq!(recipients_of(&b, "t1"), vec![2]);
    assert!(recipients_of(&b, "t2").is_empty());
    assert_eq!(b.publish_all(Vec::new()).0, vec![2]);
    // Connecting again under the same id does not bring the subscriptions back.
    b.new_peer(1);
    assert_eq!(recipients_of(&b, "t1"), vec![2]);
}

#[test]
fn handle_applies_each_event() {
    let mut b = Broker::new("srv");
    assert!(matches!(b.handle(BrokerEvent::NewPeer(5)), BrokerAction::StartWriter(5)));
    assert!(matches!(b.handle(BrokerEvent::NewPeer(5)), BrokerAction::Nothing));
    assert!(matches!(
        b.handle(BrokerEvent::Subscribe { id: 5, topics: strings(&["a"]) }),
        BrokerAction::Nothing
    ));
    match b.handle(BrokerEvent::Publish { topic: "a".to_string(), data: vec![1] }) {
        BrokerAction::Send { recipients, line } => {
            assert_eq!(recipients, vec![5]);
            assert_eq!(line, MsgPublish::encode("srv", "a", vec![1]));
        }
        _ => panic!("expected a send"),
    }
    match b.handle(BrokerEvent::PublishAll { data: vec![2] }) {
        BrokerAction::Send { recipients, line } => {
            assert_eq!(recipients, vec![5]);
            assert_eq!(line, MsgPublish::encode("srv", "*", vec![2]));
        }
        _ => panic!("expected a send"),
    }
    assert!(matches!(
        b.handle(BrokerEvent::UnSubscribe { id: 5, topics: strings(&["a"]) }),
        BrokerAction::Nothing
    ));
    match b.handle(BrokerEvent::Publish { topic: "a".to_string(), data: vec![1] }) {
        BrokerAction::Send { recipients, .. } => assert!(recipients.is_empty()),
        _ => panic!("expected a send"),
    }
    assert!(matches!(b.handle(BrokerEvent::Disconnect(5)), BrokerAction::Nothing));
    assert!(!b.is_connected(5));
}

#[test]
fn resubscribing_keeps_one_copy() {
    let mut b = Broker::new("s");
    b.new_peer(1);
    b.subscribe(1, strings(&["t1"]));
    for _ in 0..3 {
        b.subscribe(1, strings(&["t1", "t1"]));
    }
    b.subscribe(1, strings(&["t2"]));
    assert_eq!(b.publish(&"t1".to_string(), Vec::new()).0, vec![1]);
}

#[test]
fn a_gone_peer_gets_nothing_after_a_stale_subscription() {
    let mut b = Broker::new("s");
    b.new_peer(1);
    b.new_peer(2);
    b.subscribe(1, strings(&["t1"]));
    b.subscribe(2, strings(&["t1"]));
    b.disconnect(1);
    b.subscribe(1, strings(&["t1", "t2"]));
    assert_eq!(recipients_of(&b, "t1"), vec![2]);
    assert!(recipients_of(&b, "t2").is_empty());
    assert_eq!(b.publish_all(Vec::new()).0, vec![2]);
}

#[test]
fn publish_lines_are_valid_utf8() {
    let mut b = Broker::new("sé");
    b.new_peer(1);
    let (_, line) = b.publish(&"tö\n".to_string(), vec![200]);
    assert!(std::str::from_utf8(&line).is_ok());
    let (_, line) = b.publish_all(vec![1, 2]);
    assert!(std::str::from_utf8(&line).is_ok());
}
