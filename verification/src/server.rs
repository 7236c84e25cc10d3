//! The publisher's decisions outside the broker: the ids it gives to the
//! subscribers that connect, and what it makes of a line a subscriber sends.
use vstd::prelude::*;

use crate::broker::BrokerEvent;
use crate::messages::{
    MsgHeader, MsgSubscribe, MsgUnSubscribe, MSG_TYPE_SUBSCRIBE, MSG_TYPE_SUBSCRIBE_ALL,
    MSG_TYPE_UNSUBSCRIBE, MSG_TYPE_UNSUBSCRIBE_ALL,
};

verus! {

/// What a line from a subscriber asks for, by the `type` of its header.
#[derive(PartialEq, Eq, Structural)]
pub enum RequestKind {
    Subscribe,
    UnSubscribe,
    UnSubscribeAll,
    Other,
}

/// The kind of request that a message `type` names.
pub open spec fn request_kind_of(msgtype: Seq<char>) -> RequestKind {
    if msgtype == MSG_TYPE_SUBSCRIBE@ {
        RequestKind::Subscribe
    } else if msgtype == MSG_TYPE_UNSUBSCRIBE@ {
        RequestKind::UnSubscribe
    } else if msgtype == MSG_TYPE_UNSUBSCRIBE_ALL@ {
        RequestKind::UnSubscribeAll
    } else {
        RequestKind::Other
    }
}

/// `s` holds the characters of `t`.
fn same_text(s: &String, t: &str) -> (res: bool)
    ensures
        res == (s@ == t@),
{
    *s == t.to_string()
}

/// The kind of request that a line with `header` makes.
pub fn request_kind(header: &MsgHeader) -> (kind: RequestKind)
    ensures
        kind == request_kind_of(header.msgtype@),
{
    if same_text(&header.msgtype, MSG_TYPE_SUBSCRIBE) {
        RequestKind::Subscribe
    } else if same_text(&header.msgtype, MSG_TYPE_UNSUBSCRIBE) {
        RequestKind::UnSubscribe
    } else if same_text(&header.msgtype, MSG_TYPE_UNSUBSCRIBE_ALL) {
        RequestKind::UnSubscribeAll
    } else {
        RequestKind::Other
    }
}

/// A request from a subscriber, with its body read according to its kind.
pub enum Request {
    Subscribe(MsgSubscribe),
    UnSubscribe(MsgUnSubscribe),
    UnSubscribeAll,
    Other,
}

/// What the broker is told of a request from subscriber `client_id`: a
/// subscription or its end; asking to give up every topic, and any other
/// type, is ignored.
pub fn request_event(client_id: usize, request: Request) -> (event: Option<BrokerEvent>)
    ensures
        (match request {
            Request::Subscribe(msg) => event == Some(
                BrokerEvent::Subscribe { id: client_id, topics: msg.topics },
            ),
            Request::UnSubscribe(msg) => event == Some(
                BrokerEvent::UnSubscribe { id: client_id, topics: msg.topics },
            ),
            _ => event is None,
        }),
{
    match request {
        Request::Subscribe(msg) => Some(BrokerEvent::Subscribe { id: client_id, topics: msg.topics }),
        Request::UnSubscribe(msg) => Some(
            BrokerEvent::UnSubscribe { id: client_id, topics: msg.topics },
        ),
        Request::UnSubscribeAll => None,
        Request::Other => None,
    }
}

/// Something that happens to the listener.
pub enum AcceptEvent {
    /// A subscriber has connected.
    Connection,
    /// The listener yields no more connections.
    ListenerEnded,
    /// The publisher is shut down.
    ShutDown,
}

/// What the listener's owner is to do.
#[derive(PartialEq, Eq, Structural)]
pub enum AcceptAction {
    /// Serve the new connection under this id.
    Serve(usize),
    /// Stop listening.
    Stop,
}

/// Gives each subscriber that connects an id of its own: 1 for the first,
/// then each one more than the last.
pub struct Acceptor {
    last_id: usize,
    stopped: bool,
}

/// The listener's state: the last id given, and whether it has stopped.
pub struct AcceptorView {
    pub last_id: nat,
    pub stopped: bool,
}

impl View for Acceptor {
    type V = AcceptorView;

    closed spec fn view(&self) -> AcceptorView {
        AcceptorView { last_id: self.last_id as nat, stopped: self.stopped }
    }
}

impl Acceptor {
    /// No id given yet.
    pub fn new() -> (res: Acceptor)
        ensures
            res@.last_id == 0,
            !res@.stopped,
    {
        Acceptor { last_id: 0, stopped: false }
    }

    /// Whether one more id can be given.
    pub fn can_serve(&self) -> (res: bool)
        ensures
            res == (self@.last_id < usize::MAX),
    {
        self.last_id < usize::MAX
    }

    /// Applies one event. A connection gets the next id; the end of the
    /// listener or a shutdown stops it, and once stopped it stays so.
    pub fn handle(&mut self, event: AcceptEvent) -> (action: AcceptAction)
        requires
            event is Connection ==> old(self)@.last_id < usize::MAX,
        ensures
            old(self)@.stopped ==> action == AcceptAction::Stop && final(self)@ == old(self)@,
            !old(self)@.stopped ==> (match event {
                AcceptEvent::Connection => {
                    &&& action == AcceptAction::Serve((old(self)@.last_id + 1) as usize)
                    &&& final(self)@ == AcceptorView {
                        last_id: old(self)@.last_id + 1,
                        stopped: false,
                    }
                },
                _ => {
                    &&& action == AcceptAction::Stop
                    &&& final(self)@ == AcceptorView { last_id: old(self)@.last_id, stopped: true }
                },
            }),
    {
        if self.stopped {
            return AcceptAction::Stop;
        }
        match event {
            AcceptEvent::Connection => {
                self.last_id = self.last_id + 1;
                AcceptAction::Serve(self.last_id)
            },
            AcceptEvent::ListenerEnded => {
                self.stopped = true;
                AcceptAction::Stop
            },
            AcceptEvent::ShutDown => {
                self.stopped = true;
                AcceptAction::Stop
            },
        }
    }
}

/// Law: the request for every message that a subscriber without topics sends
/// (type `subscribe_all`) asks the broker for nothing: it is of kind `Other`,
/// so `request_event` yields no event for it, and the subscriber holds no
/// subscription (see `broker::law_received_topics_within` with no topic
/// allowed: only what is published to all reaches it).
pub proof fn law_subscribe_all_asks_for_no_topic()
    ensures
        request_kind_of(MSG_TYPE_SUBSCRIBE_ALL@) == RequestKind::Other,
{
    reveal_strlit("subscribe_all");
    reveal_strlit("subscribe");
    reveal_strlit("unsubscribe");
    reveal_strlit("unsubscribe_all");
    assert(MSG_TYPE_SUBSCRIBE_ALL@.len() != MSG_TYPE_SUBSCRIBE@.len());
    assert(MSG_TYPE_SUBSCRIBE_ALL@.len() != MSG_TYPE_UNSUBSCRIBE@.len());
    assert(MSG_TYPE_SUBSCRIBE_ALL@.len() != MSG_TYPE_UNSUBSCRIBE_ALL@.len());
}

} // verus!
