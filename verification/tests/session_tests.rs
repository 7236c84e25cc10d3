use psmsg::broker::{Broker, BrokerEvent};
use psmsg::client::{
    configs_for_addrs, subscription_request, OneSubscribeConfig, RawMessage, Session,
    SessionAction, SessionEvent, SessionState, RETRY_DELAY_SECS,
};
use psmsg::messages::{MsgHeader, MsgPublish, MsgSubscribe, MsgSubscribeAll, MsgUnSubscribe};
use psmsg::server::{request_event, request_kind, AcceptAction, AcceptEvent, Acceptor, Request, RequestKind};

fn strings(v: &[&str]) -> Vec<String> {
    v.iter().map(|s| s.to_string()).collect()
}

fn header(t: &str) -> MsgHeader {
    MsgHeader { version: "1.0.0".to_string(), msgtype: t.to_string() }
}

fn publish(topic: &str) -> MsgPublish {
    MsgPublish {
        version: "1.0.0".to_string(),
        msgtype: "publish".to_string(),
        source: "s5".to_string(),
        topic: topic.to_string(),
        data: b"42".to_vec(),
    }
}

#[test]
fn ids_start_at_one_and_grow() {
    let mut a = Acceptor::new();
    assert!(a.can_serve());
    assert!(a.handle(AcceptEvent::Connection) == AcceptAction::Serve(1));
    assert!(a.handle(AcceptEvent::Connection) == AcceptAction::Serve(2));
    assert!(a.handle(AcceptEvent::Connection) == AcceptAction::Serve(3));
    assert!(a.handle(AcceptEvent::ShutDown) == AcceptAction::Stop);
    assert!(a.handle(AcceptEvent::Connection) == AcceptAction::Stop);
}

#[test]
fn the_end_of_the_listener_stops_it() {
    let mut a = Acceptor::new();
    assert!(a.handle(AcceptEvent::ListenerEnded) == AcceptAction::Stop);
    assert!(a.handle(AcceptEvent::Connection) == AcceptAction::Stop);
}

#[test]
fn requests_are_classified_by_type() {
    assert!(request_kind(&header("subscribe")) == RequestKind::Subscribe);
    assert!(request_kind(&header("unsubscribe")) == RequestKind::UnSubscribe);
    assert!(request_kind(&header("unsubscribe_all")) == RequestKind::UnSubscribeAll);
    assert!(request_kind(&header("subscribe_all")) == RequestKind::Other);
    assert!(request_kind(&header("publish")) == RequestKind::Other);
    assert!(request_kind(&header("")) == RequestKind::Other);
}

#[test]
fn requests_become_broker_events() {
    let sub = MsgSubscribe {
        version: "1.0.0".to_string(),
        msgtype: "subscribe".to_string(),
        topics: strings(&["t1"]),
    };
    match request_event(3, Request::Subscribe(sub)) {
        Some(BrokerEvent::Subscribe { id, topics }) => {
            assert_eq!(id, 3);
            assert_eq!(topics, strings(&["t1"]));
        }
        _ => panic!("expected a subscription"),
    }
    let unsub = MsgUnSubscribe {
        version: "1.0.0".to_string(),
        msgtype: "unsubscribe".to_string(),
        topics: strings(&["t2"]),
    };
    match request_event(4, Request::UnSubscribe(unsub)) {
        Some(BrokerEvent::UnSubscribe { id, topics }) => {
            assert_eq!(id, 4);
            assert_eq!(topics, strings(&["t2"]));
        }
        _ => panic!("expected an unsubscription"),
    }
    assert!(request_event(4, Request::UnSubscribeAll).is_none());
    assert!(request_event(4, Request::Other).is_none());
}

#[test]
fn configs_for_addrs_ask_for_everything() {
    let configs = configs_for_addrs(strings(&["127.0.0.1:8080", "127.0.0.1:8081"]));
    assert_eq!(configs.subs.len(), 2);
    assert_eq!(configs.subs[0].addr, "127.0.0.1:8080");
    assert_eq!(configs.subs[1].addr, "127.0.0.1:8081");
    assert!(configs.subs.iter().all(|c| c.topics.is_empty()));
}

#[test]
fn subscription_request_depends_on_topics() {
    assert_eq!(subscription_request(&Vec::new()), MsgSubscribeAll::encode());
    assert_eq!(
        subscription_request(&strings(&["t2", "t1"])),
        MsgSubscribe::encode(strings(&["t2", "t1"]))
    );
}

#[test]
fn raw_message_keeps_the_published_fields() {
    let raw = RawMessage::from_publish(publish("t1"));
    assert_eq!(raw.source, "s5");
    assert_eq!(raw.topic, "t1");
    assert_eq!(raw.data, b"42".to_vec());
}

#[test]
fn a_session_subscribes_then_delivers() {
    let mut s = Session::new(OneSubscribeConfig {
        addr: "127.0.0.1:8080".to_string(),
        topics: strings(&["t1"]),
    });
    assert!(s.current_state() == SessionState::Connecting);
    assert_eq!(s.addr(), "127.0.0.1:8080");
    match s.step(SessionEvent::ConnectFailed) {
        SessionAction::RetryAfterSecs(secs) => assert_eq!(secs, RETRY_DELAY_SECS),
        _ => panic!("expected a retry"),
    }
    assert_eq!(RETRY_DELAY_SECS, 5);
    match s.step(SessionEvent::ConnectSucceeded) {
        SessionAction::Send(line) => assert_eq!(line, MsgSubscribe::encode(strings(&["t1"]))),
        _ => panic!("expected the subscription"),
    }
    assert!(s.current_state() == SessionState::Connected);
    match s.step(SessionEvent::Received(Some(publish("t1")))) {
        SessionAction::Deliver(m) => {
            assert_eq!(m.topic, "t1");
            assert_eq!(m.data, b"42".to_vec());
        }
        _ => panic!("expected a delivery"),
    }
    assert!(matches!(s.step(SessionEvent::Received(None)), SessionAction::Skip));
    assert!(matches!(s.step(SessionEvent::StreamEnded), SessionAction::Reconnect));
    assert!(s.current_state() == SessionState::Connecting);
    assert!(matches!(s.step(SessionEvent::ConnectSucceeded), SessionAction::Send(_)));
    assert!(matches!(s.step(SessionEvent::ReadFailed), SessionAction::Stop));
    assert!(s.current_state() == SessionState::Stopped);
    assert!(matches!(s.step(SessionEvent::ConnectSucceeded), SessionAction::Stop));
}

#[test]
fn a_session_without_topics_asks_for_everything() {
    let mut s = Session::new(OneSubscribeConfig { addr: "a".to_string(), topics: Vec::new() });
    match s.step(SessionEvent::ConnectSucceeded) {
        SessionAction::Send(line) => assert_eq!(line, MsgSubscribeAll::encode()),
        _ => panic!("expected the subscription"),
    }
    assert!(matches!(s.step(SessionEvent::WriteFailed), SessionAction::Stop));
}

#[test]
fn events_that_do_not_fit_change_nothing() {
    let mut s = Session::new(OneSubscribeConfig { addr: "a".to_string(), topics: Vec::new() });
    assert!(matches!(s.step(SessionEvent::StreamEnded), SessionAction::Skip));
    assert!(matches!(s.step(SessionEvent::Received(None)), SessionAction::Skip));
    assert!(s.current_state() == SessionState::Connecting);
    s.step(SessionEvent::ConnectSucceeded);
    assert!(matches!(s.step(SessionEvent::ConnectFailed), SessionAction::Skip));
    assert!(s.current_state() == SessionState::Connected);
}

#[test]
fn a_subscribe_all_client_only_gets_broadcasts() {
    // What the server makes of the line a client without topics sends.
    let line = subscription_request(&Vec::new());
    let value: serde_json::Value = serde_json::from_slice(&line).unwrap();
    let kind = request_kind(&header(value["type"].as_str().unwrap()));
    assert!(kind == RequestKind::Other);
    assert!(request_event(1, Request::Other).is_none());
    let mut b = Broker::new("s");
    b.new_peer(1);
    b.new_peer(2);
    b.subscribe(2, strings(&["t1"]));
    assert!(b.publish(&"t1".to_string(), Vec::new()).0 == vec![2]);
    let mut all = b.publish_all(Vec::new()).0;
    all.sort();
    assert_eq!(all, vec![1, 2]);
}
