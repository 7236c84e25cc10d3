//! The subscriber's decisions: what it subscribes to at each publisher, what
//! it sends once connected, and what it does with each event of a connection.
use vstd::prelude::*;
use vstd::utf8::valid_utf8;

use crate::json::{ascii_bytes, is_one_line, json_of_strs};
use crate::json_read::read_strings;
use crate::messages::{
    law_subscribe_all_line, law_subscribe_line, line_end, subscribe_prefix, wire_line, MsgPublish, MsgSubscribe, MsgSubscribeAll, MsgSubscribeAllView, MsgSubscribeView,
    MSG_TYPE_SUBSCRIBE, MSG_TYPE_SUBSCRIBE_ALL, MSG_VERSION,
};

verus! {

/// How long to wait before connecting again after a failed attempt.
pub const RETRY_DELAY_SECS: u64 = 5;

/// One publisher to subscribe to, and the topics to ask it for; no topic means
/// every message.
#[derive(Debug)]
pub struct OneSubscribeConfig {
    pub addr: String,
    pub topics: Vec<String>,
}

/// The publishers to subscribe to.
#[derive(Debug)]
pub struct SubscribeConfigs {
    pub subs: Vec<OneSubscribeConfig>,
}

/// A message as the subscriber hands it to its user.
#[derive(Debug)]
pub struct RawMessage {
    pub source: String,
    pub topic: String,
    pub data: Vec<u8>,
}

pub struct OneSubscribeConfigView {
    pub addr: Seq<char>,
    pub topics: Seq<Seq<char>>,
}

pub struct RawMessageView {
    pub source: Seq<char>,
    pub topic: Seq<char>,
    pub data: Seq<u8>,
}

impl View for OneSubscribeConfig {
    type V = OneSubscribeConfigView;

    open spec fn view(&self) -> OneSubscribeConfigView {
        OneSubscribeConfigView { addr: self.addr@, topics: self.topics.deep_view() }
    }
}

impl View for RawMessage {
    type V = RawMessageView;

    open spec fn view(&self) -> RawMessageView {
        RawMessageView { source: self.source@, topic: self.topic@, data: self.data@ }
    }
}

/// Subscribes to every message of each of `addrs`, in order.
pub fn configs_for_addrs(addrs: Vec<String>) -> (res: SubscribeConfigs)
    ensures
        res.subs@.len() == addrs@.len(),
        forall|i: int|
            0 <= i < addrs@.len() ==> (#[trigger] res.subs@[i])@ == (OneSubscribeConfigView {
                addr: addrs@[i]@,
                topics: Seq::empty(),
            }),
{
    let mut subs: Vec<OneSubscribeConfig> = Vec::new();
    let n = addrs.len();
    for i in 0..n
        invariant
            n == addrs@.len(),
            subs@.len() == i,
            forall|j: int|
                0 <= j < i ==> (#[trigger] subs@[j])@ == (OneSubscribeConfigView {
                    addr: addrs@[j]@,
                    topics: Seq::empty(),
                }),
    {
        let sub = OneSubscribeConfig { addr: addrs[i].clone(), topics: Vec::new() };
        assert(sub.topics.deep_view() =~= Seq::<Seq<char>>::empty());
        subs.push(sub);
    }
    SubscribeConfigs { subs }
}

/// The line that a subscriber sends once connected: a request for every
/// message when it names no topic, else for its topics.
pub open spec fn subscription_line(topics: Seq<Seq<char>>) -> Seq<u8> {
    if topics.len() == 0 {
        wire_line(
            MsgSubscribeAllView { version: MSG_VERSION@, msgtype: MSG_TYPE_SUBSCRIBE_ALL@ }.json(),
        )
    } else {
        wire_line(
            MsgSubscribeView { version: MSG_VERSION@, msgtype: MSG_TYPE_SUBSCRIBE@, topics }.json(),
        )
    }
}

/// Law: a subscriber that names no topic asks for every message, with the
/// line `{"version":"1.0.0","type":"subscribe_all"}` and a newline; one that
/// names topics sends the subscribe line whose topics array holds exactly its
/// topics, all of them, in order.
pub proof fn law_subscription_line(topics: Seq<Seq<char>>)
    ensures
        topics.len() == 0 ==> subscription_line(topics) == ascii_bytes(
            "{\"version\":\"1.0.0\",\"type\":\"subscribe_all\"}\n"@,
        ),
        topics.len() > 0 ==> subscription_line(topics) == subscribe_prefix() + json_of_strs(topics)
            + line_end(),
        topics.len() > 0 ==> read_strings(json_of_strs(topics)) == Some(topics),
{
    law_subscribe_all_line();
    law_subscribe_line(topics);
}

/// The line to send to a publisher to subscribe to `topics`.
pub fn subscription_request(topics: &Vec<String>) -> (line: Vec<u8>)
    ensures
        line@ == subscription_line(topics.deep_view()),
        topics@.len() == 0 ==> line@ == ascii_bytes(
            "{\"version\":\"1.0.0\",\"type\":\"subscribe_all\"}\n"@,
        ),
        topics@.len() > 0 ==> line@ == subscribe_prefix() + json_of_strs(topics.deep_view())
            + line_end(),
        is_one_line(line@),
        valid_utf8(line@),
{
    proof {
        law_subscription_line(topics.deep_view());
    }
    if topics.len() == 0 {
        MsgSubscribeAll::encode()
    } else {
        MsgSubscribe::encode(topics.clone())
    }
}

impl RawMessage {
    /// What a published message carries for the user.
    pub fn from_publish(msg: MsgPublish) -> (res: RawMessage)
        ensures
            res@ == (RawMessageView { source: msg.source@, topic: msg.topic@, data: msg.data@ }),
    {
        RawMessage { source: msg.source, topic: msg.topic, data: msg.data }
    }
}

/// Where a connection to a publisher stands.
#[derive(PartialEq, Eq, Structural)]
pub enum SessionState {
    /// Trying to connect.
    Connecting,
    /// Connected and subscribed.
    Connected,
    /// Given up after an error.
    Stopped,
}

/// Something that happens to a connection.
pub enum SessionEvent {
    /// The connection is made.
    ConnectSucceeded,
    /// The connection could not be made.
    ConnectFailed,
    /// A line came in: the published message it holds, or none when it is not
    /// one.
    Received(Option<MsgPublish>),
    /// The publisher closed the connection.
    StreamEnded,
    /// Reading from the connection failed.
    ReadFailed,
    /// Writing to the connection failed.
    WriteFailed,
}

/// What the owner of a connection is to do.
pub enum SessionAction {
    /// Write this line to the publisher.
    Send(Vec<u8>),
    /// Wait this many seconds, then connect again.
    RetryAfterSecs(u64),
    /// Connect again at once.
    Reconnect,
    /// Hand this message to the user.
    Deliver(RawMessage),
    /// Go on reading.
    Skip,
    /// Give up this publisher.
    Stop,
}

/// One subscriber's connection to one publisher.
pub struct Session {
    config: OneSubscribeConfig,
    state: SessionState,
}

impl Session {
    /// What this connection subscribes to.
    pub closed spec fn config(&self) -> OneSubscribeConfigView {
        self.config@
    }

    /// Where the connection stands.
    pub closed spec fn state(&self) -> SessionState {
        self.state
    }

    /// A connection still to be made.
    pub fn new(config: OneSubscribeConfig) -> (res: Session)
        ensures
            res.config() == config@,
            res.state() == SessionState::Connecting,
    {
        Session { config, state: SessionState::Connecting }
    }

    /// The address to connect to.
    pub fn addr(&self) -> (res: &String)
        ensures
            res@ == self.config().addr,
    {
        &self.config.addr
    }

    /// Where the connection stands.
    pub fn current_state(&self) -> (res: SessionState)
        ensures
            res == self.state(),
    {
        match self.state {
            SessionState::Connecting => SessionState::Connecting,
            SessionState::Connected => SessionState::Connected,
            SessionState::Stopped => SessionState::Stopped,
        }
    }

    /// Applies one event. Once connected the subscriber sends its
    /// subscription; a failed attempt is retried after a delay; each published
    /// message that comes in is handed on, any other line skipped; when the
    /// publisher closes the connection it connects again; after a read or write
    /// error it stops for good. An event that does not fit the state changes
    /// nothing.
    pub fn step(&mut self, event: SessionEvent) -> (action: SessionAction)
        ensures
            final(self).config() == old(self).config(),
            old(self).state() == SessionState::Stopped ==> final(self).state() == SessionState::Stopped
                && action is Stop,
            old(self).state() == SessionState::Connecting ==> (match event {
                SessionEvent::ConnectSucceeded => {
                    &&& final(self).state() == SessionState::Connected
                    &&& action matches SessionAction::Send(line)
                    &&& line@ == subscription_line(old(self).config().topics)
                },
                SessionEvent::ConnectFailed => {
                    &&& final(self).state() == SessionState::Connecting
                    &&& action == SessionAction::RetryAfterSecs(RETRY_DELAY_SECS)
                },
                _ => final(self).state() == SessionState::Connecting && action is Skip,
            }),
            old(self).state() == SessionState::Connected ==> (match event {
                SessionEvent::Received(Some(msg)) => {
                    &&& final(self).state() == SessionState::Connected
                    &&& action matches SessionAction::Deliver(m)
                    &&& m@ == (RawMessageView {
                        source: msg.source@,
                        topic: msg.topic@,
                        data: msg.data@,
                    })
                },
                SessionEvent::Received(None) => final(self).state() == SessionState::Connected
                    && action is Skip,
                SessionEvent::StreamEnded => final(self).state() == SessionState::Connecting
                    && action is Reconnect,
                SessionEvent::ReadFailed => final(self).state() == SessionState::Stopped
                    && action is Stop,
                SessionEvent::WriteFailed => final(self).state() == SessionState::Stopped
                    && action is Stop,
                _ => final(self).state() == SessionState::Connected && action is Skip,
            }),
    {
        match self.state {
            SessionState::Stopped => SessionAction::Stop,
            SessionState::Connecting => match event {
                SessionEvent::ConnectSucceeded => {
                    self.state = SessionState::Connected;
                    SessionAction::Send(subscription_request(&self.config.topics))
                },
                SessionEvent::ConnectFailed => SessionAction::RetryAfterSecs(RETRY_DELAY_SECS),
                _ => SessionAction::Skip,
            },
            SessionState::Connected => match event {
                SessionEvent::Received(Some(msg)) => SessionAction::Deliver(
                    RawMessage::from_publish(msg),
                ),
                SessionEvent::Received(None) => SessionAction::Skip,
                SessionEvent::StreamEnded => {
                    self.state = SessionState::Connecting;
                    SessionAction::Reconnect
                },
                SessionEvent::ReadFailed => {
                    self.state = SessionState::Stopped;
                    SessionAction::Stop
                },
                SessionEvent::WriteFailed => {
                    self.state = SessionState::Stopped;
                    SessionAction::Stop
                },
                _ => SessionAction::Skip,
            },
        }
    }
}

} // verus!
