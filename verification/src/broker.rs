//! The publisher's broker: which subscribers are connected, which topics each
//! has asked for, and who receives what is published.
//!
//! The broker is a state machine. Each event (a subscriber connects, asks for
//! or gives up topics, disconnects; the user publishes) changes its state and
//! yields an action for the caller to carry out.
use vstd::prelude::*;
use vstd::utf8::valid_utf8;

use crate::json::{is_one_line, json_of_bytes, json_of_str};
use crate::json_read::read_bytes;
use crate::messages::{
    law_publish_line, line_end, publish_before_data, publish_before_topic, publish_prefix, wire_line,
    MsgPublish, MsgPublishView, MSG_TYPE_PUBLISH, MSG_VERSION,
};
use crate::table::{
    as_map, has_key, keys_distinct, lemma_as_map_at, lemma_as_map_push, lemma_as_map_remove,
    lemma_as_map_update, lemma_push_new, lemma_remove_at, position_of_id, position_of_str,
};

verus! {

/// The topic that a message published to every subscriber is sent under.
pub const TOPIC_ALL: &'static str = "*";

/// What the broker knows: its name, the connected subscribers, the subscribers
/// of each topic and the topics of each subscriber.
#[verifier::ext_equal]
pub struct BrokerView {
    pub name: Seq<char>,
    pub peers: Set<usize>,
    pub t2c: Map<Seq<char>, Set<usize>>,
    pub c2t: Map<usize, Set<Seq<char>>>,
}

impl BrokerView {
    /// A broker that knows no subscriber.
    pub open spec fn empty(name: Seq<char>) -> BrokerView {
        BrokerView { name, peers: Set::empty(), t2c: Map::empty(), c2t: Map::empty() }
    }

    /// The subscribers recorded for `topic`.
    pub open spec fn subscribers_of(self, topic: Seq<char>) -> Set<usize> {
        if self.t2c.contains_key(topic) {
            self.t2c[topic]
        } else {
            Set::empty()
        }
    }

    /// The topics recorded for subscriber `id`.
    pub open spec fn topics_of(self, id: usize) -> Set<Seq<char>> {
        if self.c2t.contains_key(id) {
            self.c2t[id]
        } else {
            Set::empty()
        }
    }

    /// Subscriber `id` is subscribed to `topic`.
    pub open spec fn is_subscribed(self, topic: Seq<char>, id: usize) -> bool {
        self.subscribers_of(topic).contains(id)
    }

    /// The two records of subscriptions agree.
    pub open spec fn consistent(self) -> bool {
        forall|topic: Seq<char>, id: usize|
            #![trigger self.subscribers_of(topic).contains(id)]
            #![trigger self.topics_of(id).contains(topic)]
            self.subscribers_of(topic).contains(id) <==> self.topics_of(id).contains(topic)
    }

    /// Subscriber `id` is connected.
    pub open spec fn with_peer(self, id: usize) -> BrokerView {
        BrokerView { peers: self.peers.insert(id), ..self }
    }

    /// Subscriber `id` subscribes to `topic`.
    pub open spec fn with_subscription(self, id: usize, topic: Seq<char>) -> BrokerView {
        BrokerView {
            t2c: self.t2c.insert(topic, self.subscribers_of(topic).insert(id)),
            c2t: self.c2t.insert(id, self.topics_of(id).insert(topic)),
            ..self
        }
    }

    /// Subscriber `id` subscribes to each of `topics`, in order.
    pub open spec fn with_subscriptions(self, id: usize, topics: Seq<Seq<char>>) -> BrokerView
        decreases topics.len(),
    {
        if topics.len() == 0 {
            self
        } else {
            self.with_subscriptions(id, topics.drop_last()).with_subscription(id, topics.last())
        }
    }

    /// Subscriber `id` gives up `topic`; a record that does not exist stays
    /// absent.
    pub open spec fn without_subscription(self, id: usize, topic: Seq<char>) -> BrokerView {
        BrokerView {
            t2c: if self.t2c.contains_key(topic) {
                self.t2c.insert(topic, self.t2c[topic].remove(id))
            } else {
                self.t2c
            },
            c2t: if self.c2t.contains_key(id) {
                self.c2t.insert(id, self.c2t[id].remove(topic))
            } else {
                self.c2t
            },
            ..self
        }
    }

    /// Subscriber `id` gives up each of `topics`, in order.
    pub open spec fn without_subscriptions(self, id: usize, topics: Seq<Seq<char>>) -> BrokerView
        decreases topics.len(),
    {
        if topics.len() == 0 {
            self
        } else {
            self.without_subscriptions(id, topics.drop_last()).without_subscription(
                id,
                topics.last(),
            )
        }
    }

    /// Subscriber `id` is gone: it is no longer connected, it is struck from the
    /// subscribers of each topic recorded for it, and its own record is dropped.
    pub open spec fn without_peer(self, id: usize) -> BrokerView {
        BrokerView {
            peers: self.peers.remove(id),
            t2c: self.t2c.map_entries(
                |topic: Seq<char>, ids: Set<usize>|
                    if self.topics_of(id).contains(topic) {
                        ids.remove(id)
                    } else {
                        ids
                    },
            ),
            c2t: self.c2t.remove(id),
            ..self
        }
    }

    /// Who receives what is published under `topic`: its connected subscribers.
    pub open spec fn recipients(self, topic: Seq<char>) -> Set<usize> {
        self.subscribers_of(topic).intersect(self.peers)
    }

    /// The line that carries `data` published by this broker under `topic`.
    pub open spec fn publish_line(self, topic: Seq<char>, data: Seq<u8>) -> Seq<u8> {
        wire_line(
            MsgPublishView {
                version: MSG_VERSION@,
                msgtype: MSG_TYPE_PUBLISH@,
                source: self.name,
                topic,
                data,
            }.json(),
        )
    }
}

/// The subscribers of one topic.
struct TopicEntry {
    topic: String,
    clients: Vec<usize>,
}

/// The topics of one subscriber.
struct ClientEntry {
    id: usize,
    topics: Vec<String>,
}

/// The broker's state.
pub struct Broker {
    name: String,
    peers: Vec<usize>,
    t2c: Vec<TopicEntry>,
    c2t: Vec<ClientEntry>,
}

/// Something that happens to the broker.
pub enum BrokerEvent {
    /// A subscriber has connected under a fresh id.
    NewPeer(usize),
    /// A subscriber asks for topics.
    Subscribe { id: usize, topics: Vec<String> },
    /// A subscriber gives up topics.
    UnSubscribe { id: usize, topics: Vec<String> },
    /// The user publishes data under a topic.
    Publish { topic: String, data: Vec<u8> },
    /// The user publishes data to every subscriber.
    PublishAll { data: Vec<u8> },
    /// The connection to a subscriber has ended.
    Disconnect(usize),
}

/// An event as the broker's model sees it.
pub enum BrokerEventView {
    NewPeer(usize),
    Subscribe(usize, Seq<Seq<char>>),
    UnSubscribe(usize, Seq<Seq<char>>),
    Publish(Seq<char>, Seq<u8>),
    PublishAll(Seq<u8>),
    Disconnect(usize),
}

impl View for BrokerEvent {
    type V = BrokerEventView;

    open spec fn view(&self) -> BrokerEventView {
        match self {
            BrokerEvent::NewPeer(id) => BrokerEventView::NewPeer(*id),
            BrokerEvent::Subscribe { id, topics } => BrokerEventView::Subscribe(
                *id,
                topics.deep_view(),
            ),
            BrokerEvent::UnSubscribe { id, topics } => BrokerEventView::UnSubscribe(
                *id,
                topics.deep_view(),
            ),
            BrokerEvent::Publish { topic, data } => BrokerEventView::Publish(topic@, data@),
            BrokerEvent::PublishAll { data } => BrokerEventView::PublishAll(data@),
            BrokerEvent::Disconnect(id) => BrokerEventView::Disconnect(*id),
        }
    }
}

impl BrokerView {
    /// The state after one event.
    pub open spec fn step(self, event: BrokerEventView) -> BrokerView {
        match event {
            BrokerEventView::NewPeer(id) => self.with_peer(id),
            BrokerEventView::Subscribe(id, topics) => self.with_subscriptions(id, topics),
            BrokerEventView::UnSubscribe(id, topics) => self.without_subscriptions(id, topics),
            BrokerEventView::Publish(_, _) => self,
            BrokerEventView::PublishAll(_) => self,
            BrokerEventView::Disconnect(id) => self.without_peer(id),
        }
    }

    /// The state after a sequence of events, in order.
    pub open spec fn run(self, events: Seq<BrokerEventView>) -> BrokerView
        decreases events.len(),
    {
        if events.len() == 0 {
            self
        } else {
            self.run(events.drop_last()).step(events.last())
        }
    }

    /// The topic under which `event` sends a message to subscriber `id`, if
    /// it sends one to it.
    pub open spec fn delivered_topic(self, event: BrokerEventView, id: usize) -> Option<Seq<char>> {
        match event {
            BrokerEventView::Publish(topic, _) => if self.recipients(topic).contains(id) {
                Some(topic)
            } else {
                None
            },
            BrokerEventView::PublishAll(_) => if self.peers.contains(id) {
                Some(TOPIC_ALL@)
            } else {
                None
            },
            _ => None,
        }
    }
}

/// What the caller is to do after an event.
pub enum BrokerAction {
    /// Start writing to the new subscriber `id`.
    StartWriter(usize),
    /// Send `line` to each of `recipients`.
    Send { recipients: Vec<usize>, line: Vec<u8> },
    /// Nothing.
    Nothing,
}

spec fn topic_pairs(v: Seq<TopicEntry>) -> Seq<(Seq<char>, Seq<usize>)> {
    v.map_values(|e: TopicEntry| (e.topic@, e.clients@))
}

spec fn client_pairs(v: Seq<ClientEntry>) -> Seq<(usize, Seq<Seq<char>>)> {
    v.map_values(|e: ClientEntry| (e.id, e.topics.deep_view()))
}

spec fn t2c_view(v: Seq<TopicEntry>) -> Map<Seq<char>, Set<usize>> {
    as_map(topic_pairs(v)).map_values(|s: Seq<usize>| s.to_set())
}

spec fn c2t_view(v: Seq<ClientEntry>) -> Map<usize, Set<Seq<char>>> {
    as_map(client_pairs(v)).map_values(|s: Seq<Seq<char>>| s.to_set())
}

spec fn t2c_wf(v: Seq<TopicEntry>) -> bool {
    &&& keys_distinct(topic_pairs(v))
    &&& forall|i: int| 0 <= i < v.len() ==> (#[trigger] v[i]).clients@.no_duplicates()
}

spec fn c2t_wf(v: Seq<ClientEntry>) -> bool {
    &&& keys_distinct(client_pairs(v))
    &&& forall|i: int| 0 <= i < v.len() ==> (#[trigger] v[i]).topics.deep_view().no_duplicates()
}

proof fn lemma_t2c_at(v: Seq<TopicEntry>, j: int)
    requires
        t2c_wf(v),
        0 <= j < v.len(),
    ensures
        t2c_view(v).contains_key(v[j].topic@),
        t2c_view(v)[v[j].topic@] == v[j].clients@.to_set(),
{
    lemma_as_map_at(topic_pairs(v), j);
}

proof fn lemma_t2c_update(v: Seq<TopicEntry>, j: int, e: TopicEntry)
    requires
        t2c_wf(v),
        0 <= j < v.len(),
        e.topic@ == v[j].topic@,
        e.clients@.no_duplicates(),
    ensures
        t2c_wf(v.update(j, e)),
        t2c_view(v.update(j, e)) == t2c_view(v).insert(e.topic@, e.clients@.to_set()),
{
    let p = topic_pairs(v);
    assert(topic_pairs(v.update(j, e)) =~= p.update(j, (p[j].0, e.clients@)));
    lemma_as_map_update(p, j, e.clients@);
    assert(t2c_view(v.update(j, e)) =~= t2c_view(v).insert(e.topic@, e.clients@.to_set()));
}

proof fn lemma_t2c_push(v: Seq<TopicEntry>, e: TopicEntry)
    requires
        t2c_wf(v),
        !t2c_view(v).contains_key(e.topic@),
        e.clients@.no_duplicates(),
    ensures
        t2c_wf(v.push(e)),
        t2c_view(v.push(e)) == t2c_view(v).insert(e.topic@, e.clients@.to_set()),
{
    let p = topic_pairs(v);
    assert(topic_pairs(v.push(e)) =~= p.push((e.topic@, e.clients@)));
    lemma_as_map_push(p, e.topic@, e.clients@);
    assert(t2c_view(v.push(e)) =~= t2c_view(v).insert(e.topic@, e.clients@.to_set()));
}

proof fn lemma_c2t_at(v: Seq<ClientEntry>, j: int)
    requires
        c2t_wf(v),
        0 <= j < v.len(),
    ensures
        c2t_view(v).contains_key(v[j].id),
        c2t_view(v)[v[j].id] == v[j].topics.deep_view().to_set(),
{
    lemma_as_map_at(client_pairs(v), j);
}

proof fn lemma_c2t_update(v: Seq<ClientEntry>, j: int, e: ClientEntry)
    requires
        c2t_wf(v),
        0 <= j < v.len(),
        e.id == v[j].id,
        e.topics.deep_view().no_duplicates(),
    ensures
        c2t_wf(v.update(j, e)),
        c2t_view(v.update(j, e)) == c2t_view(v).insert(e.id, e.topics.deep_view().to_set()),
{
    let p = client_pairs(v);
    assert(client_pairs(v.update(j, e)) =~= p.update(j, (p[j].0, e.topics.deep_view())));
    lemma_as_map_update(p, j, e.topics.deep_view());
    assert(c2t_view(v.update(j, e)) =~= c2t_view(v).insert(e.id, e.topics.deep_view().to_set()));
}

proof fn lemma_c2t_push(v: Seq<ClientEntry>, e: ClientEntry)
    requires
        c2t_wf(v),
        !c2t_view(v).contains_key(e.id),
        e.topics.deep_view().no_duplicates(),
    ensures
        c2t_wf(v.push(e)),
        c2t_view(v.push(e)) == c2t_view(v).insert(e.id, e.topics.deep_view().to_set()),
{
    let p = client_pairs(v);
    assert(client_pairs(v.push(e)) =~= p.push((e.id, e.topics.deep_view())));
    lemma_as_map_push(p, e.id, e.topics.deep_view());
    assert(c2t_view(v.push(e)) =~= c2t_view(v).insert(e.id, e.topics.deep_view().to_set()));
}

proof fn lemma_c2t_remove(v: Seq<ClientEntry>, j: int)
    requires
        c2t_wf(v),
        0 <= j < v.len(),
    ensures
        c2t_wf(v.remove(j)),
        c2t_view(v.remove(j)) == c2t_view(v).remove(v[j].id),
{
    let p = client_pairs(v);
    assert(client_pairs(v.remove(j)) =~= p.remove(j));
    lemma_as_map_remove(p, j);
    let w = v.remove(j);
    assert forall|i: int| 0 <= i < w.len() implies (#[trigger] w[i]).topics.deep_view().no_duplicates() by {
        let i2 = if i < j { i } else { i + 1 };
        assert(w[i] == v[i2]);
    }
    assert(c2t_view(v.remove(j)) =~= c2t_view(v).remove(v[j].id));
}

/// Where the entry of `topic` stands, if there is one.
fn find_topic(v: &Vec<TopicEntry>, topic: &String) -> (res: Option<usize>)
    requires
        t2c_wf(v@),
    ensures
        res matches Some(j) ==> j < v@.len() && v@[j as int].topic@ == topic@,
        res is None ==> !t2c_view(v@).contains_key(topic@),
{
    let n = v.len();
    for j in 0..n
        invariant
            n == v@.len(),
            forall|m: int| 0 <= m < j ==> v@[m].topic@ != topic@,
    {
        if v[j].topic == *topic {
            return Some(j);
        }
    }
    proof {
        if has_key(topic_pairs(v@), topic@) {
            let i = choose|i: int|
                0 <= i < topic_pairs(v@).len() && topic_pairs(v@)[i].0 == topic@;
            assert(v@[i].topic@ == topic@);
        }
    }
    None
}

/// Where the entry of subscriber `id` stands, if there is one.
fn find_client(v: &Vec<ClientEntry>, id: usize) -> (res: Option<usize>)
    requires
        c2t_wf(v@),
    ensures
        res matches Some(j) ==> j < v@.len() && v@[j as int].id == id,
        res is None ==> !c2t_view(v@).contains_key(id),
{
    let n = v.len();
    for j in 0..n
        invariant
            n == v@.len(),
            forall|m: int| 0 <= m < j ==> v@[m].id != id,
    {
        if v[j].id == id {
            return Some(j);
        }
    }
    proof {
        if has_key(client_pairs(v@), id) {
            let i = choose|i: int|
                0 <= i < client_pairs(v@).len() && client_pairs(v@)[i].0 == id;
            assert(v@[i].id == id);
        }
    }
    None
}

/// Records `id` among the subscribers of `topic`.
fn add_subscriber(t2c: &mut Vec<TopicEntry>, topic: &String, id: usize)
    requires
        t2c_wf(old(t2c)@),
    ensures
        t2c_wf(final(t2c)@),
        t2c_view(final(t2c)@) == t2c_view(old(t2c)@).insert(
            topic@,
            (if t2c_view(old(t2c)@).contains_key(topic@) {
                t2c_view(old(t2c)@)[topic@]
            } else {
                Set::empty()
            }).insert(id),
        ),
{
    match find_topic(t2c, topic) {
        Some(j) => {
            proof {
                lemma_t2c_at(t2c@, j as int);
            }
            let ghost before = t2c@;
            let mut e = t2c.remove(j);
            if position_of_id(&e.clients, id).is_none() {
                proof {
                    lemma_push_new(e.clients@, id);
                }
                e.clients.push(id);
            } else {
                assert(e.clients@.to_set().insert(id) =~= e.clients@.to_set());
            }
            t2c.insert(j, e);
            proof {
                assert(t2c@ =~= before.update(j as int, e));
                lemma_t2c_update(before, j as int, e);
            }
        },
        None => {
            let mut clients: Vec<usize> = Vec::new();
            clients.push(id);
            let e = TopicEntry { topic: topic.clone(), clients };
            proof {
                lemma_push_new(Seq::<usize>::empty(), id);
                assert(Seq::<usize>::empty().push(id) =~= clients@);
                assert(Set::<usize>::empty().insert(id) =~= Seq::<usize>::empty().to_set().insert(
                    id,
                ));
                lemma_t2c_push(t2c@, e);
            }
            t2c.push(e);
        },
    }
}

/// Strikes `id` from the subscribers of `topic`, if `topic` has an entry.
fn remove_subscriber(t2c: &mut Vec<TopicEntry>, topic: &String, id: usize)
    requires
        t2c_wf(old(t2c)@),
    ensures
        t2c_wf(final(t2c)@),
        t2c_view(final(t2c)@) == if t2c_view(old(t2c)@).contains_key(topic@) {
            t2c_view(old(t2c)@).insert(topic@, t2c_view(old(t2c)@)[topic@].remove(id))
        } else {
            t2c_view(old(t2c)@)
        },
{
    match find_topic(t2c, topic) {
        Some(j) => {
            proof {
                lemma_t2c_at(t2c@, j as int);
            }
            let ghost before = t2c@;
            let mut e = t2c.remove(j);
            match position_of_id(&e.clients, id) {
                Some(k) => {
                    proof {
                        lemma_remove_at(e.clients@, k as int);
                    }
                    e.clients.remove(k);
                },
                None => {
                    assert(e.clients@.to_set().remove(id) =~= e.clients@.to_set());
                },
            }
            t2c.insert(j, e);
            proof {
                assert(t2c@ =~= before.update(j as int, e));
                lemma_t2c_update(before, j as int, e);
            }
        },
        None => {},
    }
}

/// Records `topic` among the topics of subscriber `id`.
fn add_topic(c2t: &mut Vec<ClientEntry>, id: usize, topic: String)
    requires
        c2t_wf(old(c2t)@),
    ensures
        c2t_wf(final(c2t)@),
        c2t_view(final(c2t)@) == c2t_view(old(c2t)@).insert(
            id,
            (if c2t_view(old(c2t)@).contains_key(id) {
                c2t_view(old(c2t)@)[id]
            } else {
                Set::empty()
            }).insert(topic@),
        ),
{
    match find_client(c2t, id) {
        Some(j) => {
            proof {
                lemma_c2t_at(c2t@, j as int);
            }
            let ghost before = c2t@;
            let mut e = c2t.remove(j);
            match position_of_str(&e.topics, &topic) {
                None => {
                    proof {
                        lemma_push_new(e.topics.deep_view(), topic@);
                    }
                    let ghost old_topics = e.topics;
                    e.topics.push(topic);
                    assert(e.topics.deep_view() =~= old_topics.deep_view().push(topic@));
                },
                Some(k) => {
                    assert(e.topics.deep_view()[k as int] == topic@);
                    assert(e.topics.deep_view().to_set().insert(topic@) =~= e.topics.deep_view().to_set());
                },
            }
            c2t.insert(j, e);
            proof {
                assert(c2t@ =~= before.update(j as int, e));
                lemma_c2t_update(before, j as int, e);
            }
        },
        None => {
            let ghost t = topic@;
            let mut topics: Vec<String> = Vec::new();
            topics.push(topic);
            let e = ClientEntry { id, topics };
            proof {
                lemma_push_new(Seq::<Seq<char>>::empty(), t);
                assert(Seq::<Seq<char>>::empty().push(t) =~= e.topics.deep_view());
                assert(Set::<Seq<char>>::empty().insert(t) =~= Seq::<Seq<char>>::empty().to_set().insert(
                    t,
                ));
                lemma_c2t_push(c2t@, e);
            }
            c2t.push(e);
        },
    }
}

/// Strikes `topic` from the topics of subscriber `id`, if `id` has an entry.
fn remove_topic(c2t: &mut Vec<ClientEntry>, id: usize, topic: &String)
    requires
        c2t_wf(old(c2t)@),
    ensures
        c2t_wf(final(c2t)@),
        c2t_view(final(c2t)@) == if c2t_view(old(c2t)@).contains_key(id) {
            c2t_view(old(c2t)@).insert(id, c2t_view(old(c2t)@)[id].remove(topic@))
        } else {
            c2t_view(old(c2t)@)
        },
{
    match find_client(c2t, id) {
        Some(j) => {
            proof {
                lemma_c2t_at(c2t@, j as int);
            }
            let ghost before = c2t@;
            let mut e = c2t.remove(j);
            match position_of_str(&e.topics, topic) {
                Some(k) => {
                    proof {
                        assert(e.topics.deep_view()[k as int] == topic@);
                        lemma_remove_at(e.topics.deep_view(), k as int);
                    }
                    let ghost old_topics = e.topics;
                    e.topics.remove(k);
                    assert(e.topics.deep_view() =~= old_topics.deep_view().remove(k as int));
                },
                None => {
                    assert(e.topics.deep_view().to_set().remove(topic@) =~= e.topics.deep_view().to_set());
                },
            }
            c2t.insert(j, e);
            proof {
                assert(c2t@ =~= before.update(j as int, e));
                lemma_c2t_update(before, j as int, e);
            }
        },
        None => {},
    }
}

impl View for Broker {
    type V = BrokerView;

    closed spec fn view(&self) -> BrokerView {
        BrokerView {
            name: self.name@,
            peers: self.peers@.to_set(),
            t2c: t2c_view(self.t2c@),
            c2t: c2t_view(self.c2t@),
        }
    }
}

/// Subscribing keeps the two records of subscriptions in agreement.
pub proof fn lemma_with_subscription_consistent(b: BrokerView, id: usize, topic: Seq<char>)
    requires
        b.consistent(),
    ensures
        b.with_subscription(id, topic).consistent(),
{
    let a = b.with_subscription(id, topic);
    assert forall|t: Seq<char>, c: usize|
        a.subscribers_of(t).contains(c) <==> a.topics_of(c).contains(t) by {
        assert(b.subscribers_of(t).contains(c) <==> b.topics_of(c).contains(t));
    }
}

/// Giving up a topic keeps the two records of subscriptions in agreement.
pub proof fn lemma_without_subscription_consistent(b: BrokerView, id: usize, topic: Seq<char>)
    requires
        b.consistent(),
    ensures
        b.without_subscription(id, topic).consistent(),
{
    let a = b.without_subscription(id, topic);
    assert forall|t: Seq<char>, c: usize|
        a.subscribers_of(t).contains(c) <==> a.topics_of(c).contains(t) by {
        assert(b.subscribers_of(t).contains(c) <==> b.topics_of(c).contains(t));
    }
}

/// Dropping a subscriber keeps the two records of subscriptions in agreement.
pub proof fn lemma_without_peer_consistent(b: BrokerView, id: usize)
    requires
        b.consistent(),
    ensures
        b.without_peer(id).consistent(),
{
    let a = b.without_peer(id);
    assert forall|t: Seq<char>, c: usize|
        a.subscribers_of(t).contains(c) <==> a.topics_of(c).contains(t) by {
        assert(b.subscribers_of(t).contains(c) <==> b.topics_of(c).contains(t));
        assert(b.subscribers_of(t).contains(id) <==> b.topics_of(id).contains(t));
    }
}

/// Agreement depends on the records of subscriptions alone.
proof fn lemma_same_records_consistent(a: BrokerView, b: BrokerView)
    requires
        a.consistent(),
        a.t2c == b.t2c,
        a.c2t == b.c2t,
    ensures
        b.consistent(),
{
    assert forall|t: Seq<char>, c: usize|
        b.subscribers_of(t).contains(c) <==> b.topics_of(c).contains(t) by {
        assert(a.subscribers_of(t).contains(c) <==> a.topics_of(c).contains(t));
    }
}

impl Broker {
    /// A well-formed broker's two records of subscriptions agree.
    pub proof fn lemma_consistent(&self)
        requires
            self.wf(),
        ensures
            self@.consistent(),
    {
    }

    /// The lists stand for sets and maps (no duplicates, distinct keys) and the
    /// two records of subscriptions agree.
    pub closed spec fn wf(&self) -> bool {
        &&& self.peers@.no_duplicates()
        &&& t2c_wf(self.t2c@)
        &&& c2t_wf(self.c2t@)
        &&& self@.consistent()
    }

    /// A broker named `name` that knows no subscriber.
    pub fn new(name: &str) -> (res: Broker)
        ensures
            res.wf(),
            res@ == BrokerView::empty(name@),
    {
        let res = Broker { name: name.to_string(), peers: Vec::new(), t2c: Vec::new(), c2t: Vec::new() };
        proof {
            assert(res.peers@.to_set() =~= Set::<usize>::empty());
            assert(t2c_view(res.t2c@) =~= Map::<Seq<char>, Set<usize>>::empty());
            assert(c2t_view(res.c2t@) =~= Map::<usize, Set<Seq<char>>>::empty());
        }
        res
    }

    /// Subscriber `id` is connected.
    pub fn is_connected(&self, id: usize) -> (res: bool)
        requires
            self.wf(),
        ensures
            res == self@.peers.contains(id),
    {
        position_of_id(&self.peers, id).is_some()
    }

    /// A subscriber connects under `id`; returns whether it is new, in which
    /// case its writer is to be started. A known id changes nothing.
    pub fn new_peer(&mut self, id: usize) -> (accepted: bool)
        requires
            old(self).wf(),
        ensures
            final(self).wf(),
            final(self)@ == old(self)@.with_peer(id),
            accepted == !old(self)@.peers.contains(id),
    {
        match position_of_id(&self.peers, id) {
            Some(p) => {
                assert(self.peers@[p as int] == id);
                assert(self@.peers.insert(id) =~= self@.peers);
                assert(self@ =~= old(self)@.with_peer(id));
                false
            },
            None => {
                proof {
                    lemma_push_new(self.peers@, id);
                }
                self.peers.push(id);
                assert(self@ =~= old(self)@.with_peer(id));
                proof {
                    lemma_same_records_consistent(old(self)@, self@);
                }
                true
            },
        }
    }

    /// Subscriber `id` subscribes to each of `topics`.
    pub fn subscribe(&mut self, id: usize, topics: Vec<String>)
        requires
            old(self).wf(),
        ensures
            final(self).wf(),
            final(self)@ == old(self)@.with_subscriptions(id, topics.deep_view()),
    {
        let ghost start = self@;
        let ghost ts = topics.deep_view();
        let n = topics.len();
        for i in 0..n
            invariant
                n == topics@.len(),
                ts == topics.deep_view(),
                self.wf(),
                self@ == start.with_subscriptions(id, ts.take(i as int)),
        {
            let ghost before = self@;
            let topic = topics[i].clone();
            add_subscriber(&mut self.t2c, &topic, id);
            add_topic(&mut self.c2t, id, topic);
            proof {
                assert(ts[i as int] == topics@[i as int]@);
                assert(self@ =~= before.with_subscription(id, ts[i as int]));
                lemma_with_subscription_consistent(before, id, ts[i as int]);
                assert(ts.take(i + 1).drop_last() =~= ts.take(i as int));
            }
        }
        assert(ts.take(n as int) =~= ts);
    }

    /// Subscriber `id` gives up each of `topics`.
    pub fn unsubscribe(&mut self, id: usize, topics: Vec<String>)
        requires
            old(self).wf(),
        ensures
            final(self).wf(),
            final(self)@ == old(self)@.without_subscriptions(id, topics.deep_view()),
    {
        let ghost start = self@;
        let ghost ts = topics.deep_view();
        let n = topics.len();
        for i in 0..n
            invariant
                n == topics@.len(),
                ts == topics.deep_view(),
                self.wf(),
                self@ == start.without_subscriptions(id, ts.take(i as int)),
        {
            let ghost before = self@;
            remove_subscriber(&mut self.t2c, &topics[i], id);
            remove_topic(&mut self.c2t, id, &topics[i]);
            proof {
                assert(ts[i as int] == topics@[i as int]@);
                assert(self@ =~= before.without_subscription(id, ts[i as int]));
                lemma_without_subscription_consistent(before, id, ts[i as int]);
                assert(ts.take(i + 1).drop_last() =~= ts.take(i as int));
            }
        }
        assert(ts.take(n as int) =~= ts);
    }

    /// Subscriber `id`, which is connected, is gone.
    pub fn disconnect(&mut self, id: usize)
        requires
            old(self).wf(),
            old(self)@.peers.contains(id),
        ensures
            final(self).wf(),
            final(self)@ == old(self)@.without_peer(id),
    {
        let ghost start = self@;
        match position_of_id(&self.peers, id) {
            Some(k) => {
                proof {
                    lemma_remove_at(self.peers@, k as int);
                }
                self.peers.remove(k);
            },
            None => {
                proof {
                    assert(false);
                }
            },
        }
        match find_client(&self.c2t, id) {
            Some(j) => {
                proof {
                    lemma_c2t_at(self.c2t@, j as int);
                    lemma_c2t_remove(self.c2t@, j as int);
                }
                let e = self.c2t.remove(j);
                let ghost ts = e.topics.deep_view();
                let ghost t0 = t2c_view(self.t2c@);
                assert(t0 =~= t0.map_entries(
                    |t: Seq<char>, s: Set<usize>|
                        if ts.take(0).contains(t) {
                            s.remove(id)
                        } else {
                            s
                        },
                ));
                let ghost peers = self.peers@;
                let ghost c2t = self.c2t@;
                let n = e.topics.len();
                for i in 0..n
                    invariant
                        n == e.topics@.len(),
                        ts == e.topics.deep_view(),
                        t2c_wf(self.t2c@),
                        self.peers@ == peers,
                        self.c2t@ == c2t,
                        self.name@ == start.name,
                        t2c_view(self.t2c@) == t0.map_entries(
                            |t: Seq<char>, s: Set<usize>|
                                if ts.take(i as int).contains(t) {
                                    s.remove(id)
                                } else {
                                    s
                                },
                        ),
                {
                    let ghost before = t2c_view(self.t2c@);
                    remove_subscriber(&mut self.t2c, &e.topics[i], id);
                    proof {
                        let t_i = ts[i as int];
                        assert(t_i == e.topics@[i as int]@);
                        let next = t0.map_entries(
                            |t: Seq<char>, s: Set<usize>|
                                if ts.take(i + 1).contains(t) {
                                    s.remove(id)
                                } else {
                                    s
                                },
                        );
                        assert forall|t: Seq<char>| #[trigger] ts.take(i + 1).contains(t) <==> (
                        ts.take(i as int).contains(t) || t == t_i) by {
                            let s1 = ts.take(i + 1);
                            if s1.contains(t) && t != t_i {
                                let m = choose|m: int| 0 <= m < s1.len() && s1[m] == t;
                                assert(ts.take(i as int)[m] == t);
                            }
                            if t == t_i {
                                assert(ts.take(i + 1)[i as int] == t);
                            }
                            if ts.take(i as int).contains(t) {
                                let m = choose|m: int| 0 <= m < i && ts.take(i as int)[m] == t;
                                assert(ts.take(i + 1)[m] == t);
                            }
                        }
                        assert forall|t: Seq<char>| #[trigger] next.contains_key(t) implies t2c_view(
                            self.t2c@,
                        ).contains_key(t) && t2c_view(self.t2c@)[t] == next[t] by {
                            if t == t_i {
                                assert(t0[t].remove(id).remove(id) =~= t0[t].remove(id));
                            }
                        }
                        assert(t2c_view(self.t2c@) =~= next);
                    }
                }
                proof {
                    assert(ts.take(n as int) =~= ts);
                    assert(self@ =~= start.without_peer(id));
                }
            },
            None => {
                proof {
                    assert(start.topics_of(id) =~= Set::<Seq<char>>::empty());
                    assert(c2t_view(self.c2t@) =~= c2t_view(self.c2t@).remove(id));
                    assert(self@ =~= start.without_peer(id));
                }
            },
        }
        proof {
            lemma_without_peer_consistent(start, id);
        }
    }

    /// Who receives what is published under `topic`, and the line to send.
    pub fn publish(&self, topic: &String, data: Vec<u8>) -> (res: (Vec<usize>, Vec<u8>))
        requires
            self.wf(),
        ensures
            res.0@.no_duplicates(),
            res.0@.to_set() == self@.recipients(topic@),
            res.1@ == self@.publish_line(topic@, data@),
            res.1@ == publish_prefix() + json_of_str(self@.name) + publish_before_topic()
                + json_of_str(topic@) + publish_before_data() + json_of_bytes(data@) + line_end(),
            is_one_line(res.1@),
            valid_utf8(res.1@),
    {
        proof {
            law_publish_line(self@.name, topic@, data@);
        }
        let line = MsgPublish::encode(self.name.as_str(), topic.as_str(), data);
        let mut recipients: Vec<usize> = Vec::new();
        match find_topic(&self.t2c, topic) {
            Some(j) => {
                proof {
                    lemma_t2c_at(self.t2c@, j as int);
                }
                let clients = &self.t2c[j].clients;
                assert(clients@.no_duplicates());
                let n = clients.len();
                for k in 0..n
                    invariant
                        n == clients@.len(),
                        clients@.no_duplicates(),
                        recipients@.no_duplicates(),
                        forall|x: usize|
                            #![trigger recipients@.contains(x)]
                            recipients@.contains(x) <==> (clients@.take(k as int).contains(x)
                                && self.peers@.contains(x)),
                {
                    let c = clients[k];
                    proof {
                        assert forall|x: usize| #[trigger]
                            clients@.take(k + 1).contains(x) <==> (clients@.take(k as int).contains(
                                x,
                            ) || x == c) by {
                            let s1 = clients@.take(k + 1);
                            if s1.contains(x) && x != c {
                                let m = choose|m: int| 0 <= m < s1.len() && s1[m] == x;
                                assert(clients@.take(k as int)[m] == x);
                            }
                            if x == c {
                                assert(clients@.take(k + 1)[k as int] == x);
                            }
                            if clients@.take(k as int).contains(x) {
                                let m = choose|m: int| 0 <= m < k && clients@.take(k as int)[m] == x;
                                assert(clients@.take(k + 1)[m] == x);
                            }
                        }
                    }
                    let ghost prev = recipients@;
                    match position_of_id(&self.peers, c) {
                        Some(p) => {
                            proof {
                                assert(self.peers@[p as int] == c);
                                if recipients@.contains(c) {
                                    let m = choose|m: int|
                                        0 <= m < k && clients@.take(k as int)[m] == c;
                                    assert(clients@[m] == clients@[k as int]);
                                }
                                lemma_push_new(recipients@, c);
                            }
                            recipients.push(c);
                            proof {
                                assert forall|x: usize| #[trigger]
                                    recipients@.contains(x) <==> (prev.contains(x) || x == c) by {
                                    if recipients@.contains(x) && x != c {
                                        let m = choose|m: int|
                                            0 <= m < recipients@.len() && recipients@[m] == x;
                                        assert(prev[m] == x);
                                    }
                                    if prev.contains(x) {
                                        let m = choose|m: int| 0 <= m < prev.len() && prev[m] == x;
                                        assert(recipients@[m] == x);
                                    }
                                    if x == c {
                                        assert(recipients@[prev.len() as int] == x);
                                    }
                                }
                            }
                        },
                        None => {},
                    }
                }
                proof {
                    assert(clients@.take(n as int) =~= clients@);
                    assert(recipients@.to_set() =~= self@.recipients(topic@));
                }
            },
            None => {
                proof {
                    assert(recipients@.to_set() =~= self@.recipients(topic@));
                }
            },
        }
        (recipients, line)
    }

    /// Every connected subscriber receives what is published to all, under the
    /// topic `*`; returns them and the line to send.
    pub fn publish_all(&self, data: Vec<u8>) -> (res: (Vec<usize>, Vec<u8>))
        requires
            self.wf(),
        ensures
            res.0@.no_duplicates(),
            res.0@.to_set() == self@.peers,
            res.1@ == self@.publish_line(TOPIC_ALL@, data@),
            res.1@ == publish_prefix() + json_of_str(self@.name) + publish_before_topic()
                + json_of_str(TOPIC_ALL@) + publish_before_data() + json_of_bytes(data@) + line_end(),
            is_one_line(res.1@),
            valid_utf8(res.1@),
    {
        proof {
            law_publish_line(self@.name, TOPIC_ALL@, data@);
        }
        let line = MsgPublish::encode(self.name.as_str(), TOPIC_ALL, data);
        let mut recipients: Vec<usize> = Vec::new();
        let n = self.peers.len();
        for k in 0..n
            invariant
                n == self.peers@.len(),
                recipients@ == self.peers@.take(k as int),
        {
            recipients.push(self.peers[k]);
            assert(recipients@ =~= self.peers@.take(k + 1));
        }
        assert(recipients@ =~= self.peers@);
        (recipients, line)
    }

    /// Applies one event and says what is to be done.
    pub fn handle(&mut self, event: BrokerEvent) -> (action: BrokerAction)
        requires
            old(self).wf(),
            event matches BrokerEvent::Disconnect(id) ==> old(self)@.peers.contains(id),
        ensures
            final(self).wf(),
            final(self)@ == old(self)@.step(event@),
            action matches BrokerAction::Send { recipients, line } ==> forall|id: usize|
                #[trigger] recipients@.contains(id) <==> old(self)@.delivered_topic(event@, id) is Some,
            (match event {
                BrokerEvent::NewPeer(id) => {
                    &&& final(self)@ == old(self)@.with_peer(id)
                    &&& action == if old(self)@.peers.contains(id) {
                        BrokerAction::Nothing
                    } else {
                        BrokerAction::StartWriter(id)
                    }
                },
                BrokerEvent::Subscribe { id, topics } => {
                    &&& final(self)@ == old(self)@.with_subscriptions(id, topics.deep_view())
                    &&& action is Nothing
                },
                BrokerEvent::UnSubscribe { id, topics } => {
                    &&& final(self)@ == old(self)@.without_subscriptions(id, topics.deep_view())
                    &&& action is Nothing
                },
                BrokerEvent::Publish { topic, data } => {
                    &&& final(self)@ == old(self)@
                    &&& action matches BrokerAction::Send { recipients, line }
                    &&& recipients@.no_duplicates()
                    &&& recipients@.to_set() == old(self)@.recipients(topic@)
                    &&& line@ == old(self)@.publish_line(topic@, data@)
                },
                BrokerEvent::PublishAll { data } => {
                    &&& final(self)@ == old(self)@
                    &&& action matches BrokerAction::Send { recipients, line }
                    &&& recipients@.no_duplicates()
                    &&& recipients@.to_set() == old(self)@.peers
                    &&& line@ == old(self)@.publish_line(TOPIC_ALL@, data@)
                },
                BrokerEvent::Disconnect(id) => {
                    &&& final(self)@ == old(self)@.without_peer(id)
                    &&& action is Nothing
                },
            }),
    {
        match event {
            BrokerEvent::NewPeer(id) => {
                if self.new_peer(id) {
                    BrokerAction::StartWriter(id)
                } else {
                    BrokerAction::Nothing
                }
            },
            BrokerEvent::Subscribe { id, topics } => {
                self.subscribe(id, topics);
                BrokerAction::Nothing
            },
            BrokerEvent::UnSubscribe { id, topics } => {
                self.unsubscribe(id, topics);
                BrokerAction::Nothing
            },
            BrokerEvent::Publish { topic, data } => {
                let (recipients, line) = self.publish(&topic, data);
                BrokerAction::Send { recipients, line }
            },
            BrokerEvent::PublishAll { data } => {
                let (recipients, line) = self.publish_all(data);
                BrokerAction::Send { recipients, line }
            },
            BrokerEvent::Disconnect(id) => {
                self.disconnect(id);
                BrokerAction::Nothing
            },
        }
    }
}

/// Adding an element to a sequence adds it to what the sequence contains.
proof fn lemma_contains_last<A>(s: Seq<A>, y: A)
    requires
        s.len() > 0,
    ensures
        s.contains(y) <==> (s.drop_last().contains(y) || y == s.last()),
{
    if s.contains(y) && y != s.last() {
        let m = choose|m: int| 0 <= m < s.len() && s[m] == y;
        assert(s.drop_last()[m] == y);
    }
    if s.drop_last().contains(y) {
        let m = choose|m: int| 0 <= m < s.drop_last().len() && s.drop_last()[m] == y;
        assert(s[m] == y);
    }
    if y == s.last() {
        assert(s[s.len() - 1] == y);
    }
}

/// Law: what the broker sends for `data` published under `topic` carries the
/// data unchanged: the line is the fixed publish text with the broker's name
/// as the source, the topic, and the array of every byte of `data` in order,
/// and that array reads back as exactly `data`.
pub proof fn law_publish_line_carries_data(b: BrokerView, topic: Seq<char>, data: Seq<u8>)
    ensures
        b.publish_line(topic, data) == publish_prefix() + json_of_str(b.name)
            + publish_before_topic() + json_of_str(topic) + publish_before_data()
            + json_of_bytes(data) + line_end(),
        read_bytes(json_of_bytes(data)) == Some(data),
{
    law_publish_line(b.name, topic, data);
}

/// Law: subscribing `id` to `topics` subscribes it to each of them and to
/// nothing else; the connected subscribers and every other subscription stay
/// as they were.
pub proof fn law_subscribe_effect(b: BrokerView, id: usize, topics: Seq<Seq<char>>)
    ensures
        b.with_subscriptions(id, topics).peers == b.peers,
        b.with_subscriptions(id, topics).name == b.name,
        forall|t: Seq<char>, c: usize| #[trigger]
            b.with_subscriptions(id, topics).is_subscribed(t, c) <==> (b.is_subscribed(t, c) || (c
                == id && topics.contains(t))),
    decreases topics.len(),
{
    if topics.len() > 0 {
        law_subscribe_effect(b, id, topics.drop_last());
        let a = b.with_subscriptions(id, topics.drop_last());
        assert forall|t: Seq<char>, c: usize| #[trigger]
            b.with_subscriptions(id, topics).is_subscribed(t, c) <==> (b.is_subscribed(t, c) || (c
                == id && topics.contains(t))) by {
            lemma_contains_last(topics, t);
            assert(a.is_subscribed(t, c) <==> (b.is_subscribed(t, c) || (c == id
                && topics.drop_last().contains(t))));
        }
    }
}

/// Law: unsubscribing `id` from `topics` ends its subscription to each of them
/// and changes nothing else.
pub proof fn law_unsubscribe_effect(b: BrokerView, id: usize, topics: Seq<Seq<char>>)
    ensures
        b.without_subscriptions(id, topics).peers == b.peers,
        b.without_subscriptions(id, topics).name == b.name,
        forall|t: Seq<char>, c: usize| #[trigger]
            b.without_subscriptions(id, topics).is_subscribed(t, c) <==> (b.is_subscribed(t, c)
                && !(c == id && topics.contains(t))),
    decreases topics.len(),
{
    if topics.len() > 0 {
        law_unsubscribe_effect(b, id, topics.drop_last());
        let a = b.without_subscriptions(id, topics.drop_last());
        assert forall|t: Seq<char>, c: usize| #[trigger]
            b.without_subscriptions(id, topics).is_subscribed(t, c) <==> (b.is_subscribed(t, c)
                && !(c == id && topics.contains(t))) by {
            lemma_contains_last(topics, t);
            assert(a.is_subscribed(t, c) <==> (b.is_subscribed(t, c) && !(c == id
                && topics.drop_last().contains(t))));
        }
    }
}

/// Law: subscribing to any list of topics keeps the two records of
/// subscriptions in agreement.
pub proof fn law_subscribe_keeps_records_consistent(b: BrokerView, id: usize, topics: Seq<Seq<char>>)
    requires
        b.consistent(),
    ensures
        b.with_subscriptions(id, topics).consistent(),
    decreases topics.len(),
{
    if topics.len() > 0 {
        law_subscribe_keeps_records_consistent(b, id, topics.drop_last());
        lemma_with_subscription_consistent(
            b.with_subscriptions(id, topics.drop_last()),
            id,
            topics.last(),
        );
    }
}

/// Law: unsubscribing from any list of topics keeps the two records of
/// subscriptions in agreement.
pub proof fn law_unsubscribe_keeps_records_consistent(
    b: BrokerView,
    id: usize,
    topics: Seq<Seq<char>>,
)
    requires
        b.consistent(),
    ensures
        b.without_subscriptions(id, topics).consistent(),
    decreases topics.len(),
{
    if topics.len() > 0 {
        law_unsubscribe_keeps_records_consistent(b, id, topics.drop_last());
        lemma_without_subscription_consistent(
            b.without_subscriptions(id, topics.drop_last()),
            id,
            topics.last(),
        );
    }
}

/// Law: unsubscribing from the topics just subscribed to undoes the
/// subscription, when the subscriber held none of them before.
pub proof fn law_unsubscribe_undoes_subscribe(b: BrokerView, id: usize, topics: Seq<Seq<char>>)
    requires
        forall|t: Seq<char>| topics.contains(t) ==> !b.is_subscribed(t, id),
    ensures
        b.with_subscriptions(id, topics).without_subscriptions(id, topics).peers == b.peers,
        forall|t: Seq<char>, c: usize| #[trigger]
            b.with_subscriptions(id, topics).without_subscriptions(id, topics).is_subscribed(t, c)
                == b.is_subscribed(t, c),
{
    law_subscribe_effect(b, id, topics);
    law_unsubscribe_effect(b.with_subscriptions(id, topics), id, topics);
    let a = b.with_subscriptions(id, topics);
    assert forall|t: Seq<char>, c: usize| #[trigger]
        a.without_subscriptions(id, topics).is_subscribed(t, c) == b.is_subscribed(t, c) by {
        assert(a.is_subscribed(t, c) <==> (b.is_subscribed(t, c) || (c == id && topics.contains(t))));
    }
}

/// Law: a subscriber that is gone is no longer connected and holds no
/// subscription; every other subscriber is as it was.
pub proof fn law_disconnect_effect(b: BrokerView, id: usize)
    requires
        b.consistent(),
    ensures
        b.without_peer(id).peers == b.peers.remove(id),
        b.without_peer(id).name == b.name,
        forall|t: Seq<char>| !(#[trigger] b.without_peer(id).is_subscribed(t, id)),
        forall|t: Seq<char>, c: usize|
            c != id ==> (#[trigger] b.without_peer(id).is_subscribed(t, c) == b.is_subscribed(t, c)),
{
    let a = b.without_peer(id);
    assert forall|t: Seq<char>| !(#[trigger] a.is_subscribed(t, id)) by {
        assert(b.subscribers_of(t).contains(id) <==> b.topics_of(id).contains(t));
    }
}

/// Law: a connected subscriber receives what is published under a topic it
/// has just subscribed to.
pub proof fn law_subscriber_receives(b: BrokerView, id: usize, topics: Seq<Seq<char>>, topic: Seq<char>)
    requires
        b.peers.contains(id),
        topics.contains(topic),
    ensures
        b.with_subscriptions(id, topics).recipients(topic).contains(id),
{
    law_subscribe_effect(b, id, topics);
    assert(b.with_subscriptions(id, topics).is_subscribed(topic, id));
}

/// Law: a subscriber receives nothing published under a topic it has just
/// given up.
pub proof fn law_unsubscribed_receives_nothing(
    b: BrokerView,
    id: usize,
    topics: Seq<Seq<char>>,
    topic: Seq<char>,
)
    requires
        topics.contains(topic),
    ensures
        !b.without_subscriptions(id, topics).recipients(topic).contains(id),
{
    law_unsubscribe_effect(b, id, topics);
    assert(!b.without_subscriptions(id, topics).is_subscribed(topic, id));
}

/// Law: a subscriber that is gone receives nothing, neither under a topic nor
/// what is published to all.
pub proof fn law_disconnected_receives_nothing(b: BrokerView, id: usize, topic: Seq<char>)
    requires
        b.consistent(),
    ensures
        !b.without_peer(id).recipients(topic).contains(id),
        !b.without_peer(id).peers.contains(id),
{
    law_disconnect_effect(b, id);
    assert(!b.without_peer(id).is_subscribed(topic, id));
}

/// Law: connecting a subscriber twice is the same as connecting it once.
pub proof fn law_new_peer_idempotent(b: BrokerView, id: usize)
    ensures
        b.with_peer(id).with_peer(id) == b.with_peer(id),
{
    assert(b.with_peer(id).with_peer(id) =~= b.with_peer(id));
}

/// Law: subscribing again to topics already held changes nothing; in
/// particular every topic keeps the same recipients, and since a publish names
/// each recipient once, a subscriber still gets one copy of each message.
pub proof fn law_resubscribe_changes_nothing(b: BrokerView, id: usize, topics: Seq<Seq<char>>)
    requires
        forall|t: Seq<char>| topics.contains(t) ==> b.is_subscribed(t, id),
    ensures
        forall|t: Seq<char>, c: usize| #[trigger]
            b.with_subscriptions(id, topics).is_subscribed(t, c) == b.is_subscribed(t, c),
        forall|t: Seq<char>| #[trigger] b.with_subscriptions(id, topics).recipients(t) == b.recipients(
            t,
        ),
{
    law_subscribe_effect(b, id, topics);
    let a = b.with_subscriptions(id, topics);
    assert forall|t: Seq<char>| #[trigger] a.recipients(t) == b.recipients(t) by {
        assert forall|c: usize| a.recipients(t).contains(c) == b.recipients(t).contains(c) by {
            assert(a.is_subscribed(t, c) == b.is_subscribed(t, c));
        }
        assert(a.recipients(t) =~= b.recipients(t));
    }
}

/// `event` neither gives up `topic` for `id` nor disconnects `id`.
pub open spec fn keeps_subscription(event: BrokerEventView, id: usize, topic: Seq<char>) -> bool {
    match event {
        BrokerEventView::UnSubscribe(c, topics) => !(c == id && topics.contains(topic)),
        BrokerEventView::Disconnect(c) => c != id,
        _ => true,
    }
}

/// One event that keeps a subscription keeps it, and keeps its subscriber
/// connected.
proof fn lemma_step_keeps_subscription(
    b: BrokerView,
    id: usize,
    topic: Seq<char>,
    event: BrokerEventView,
)
    requires
        b.peers.contains(id),
        b.is_subscribed(topic, id),
        keeps_subscription(event, id, topic),
    ensures
        b.step(event).peers.contains(id),
        b.step(event).is_subscribed(topic, id),
{
    match event {
        BrokerEventView::Subscribe(c, topics) => {
            law_subscribe_effect(b, c, topics);
        },
        BrokerEventView::UnSubscribe(c, topics) => {
            law_unsubscribe_effect(b, c, topics);
        },
        BrokerEventView::Disconnect(c) => {
            let a = b.without_peer(c);
            assert(a.subscribers_of(topic).contains(id));
        },
        _ => {},
    }
}

/// Law: a connected subscriber of a topic stays one, and receives each message
/// published under that topic, for as long as it neither gives the topic up
/// nor disconnects, whatever else happens meanwhile (further subscriptions
/// included).
pub proof fn law_subscriber_keeps_receiving(
    b: BrokerView,
    id: usize,
    topic: Seq<char>,
    events: Seq<BrokerEventView>,
)
    requires
        b.peers.contains(id),
        b.is_subscribed(topic, id),
        forall|k: int| 0 <= k < events.len() ==> keeps_subscription(#[trigger] events[k], id, topic),
    ensures
        b.run(events).peers.contains(id),
        b.run(events).is_subscribed(topic, id),
        b.run(events).recipients(topic).contains(id),
    decreases events.len(),
{
    if events.len() > 0 {
        let init = events.drop_last();
        assert forall|k: int| 0 <= k < init.len() implies keeps_subscription(
            #[trigger] init[k],
            id,
            topic,
        ) by {
            assert(init[k] == events[k]);
        }
        law_subscriber_keeps_receiving(b, id, topic, init);
        assert(keeps_subscription(events[events.len() - 1], id, topic));
        lemma_step_keeps_subscription(b.run(init), id, topic, events.last());
    }
}

/// `event` connects `id`.
pub open spec fn connects(event: BrokerEventView, id: usize) -> bool {
    event == BrokerEventView::NewPeer(id)
}

/// Events that do not connect `id` leave it disconnected.
proof fn lemma_run_keeps_peer_out(b: BrokerView, id: usize, events: Seq<BrokerEventView>)
    requires
        !b.peers.contains(id),
        forall|k: int| 0 <= k < events.len() ==> !connects(#[trigger] events[k], id),
    ensures
        !b.run(events).peers.contains(id),
    decreases events.len(),
{
    if events.len() > 0 {
        let init = events.drop_last();
        assert forall|k: int| 0 <= k < init.len() implies !connects(#[trigger] init[k], id) by {
            assert(init[k] == events[k]);
        }
        lemma_run_keeps_peer_out(b, id, init);
        assert(!connects(events[events.len() - 1], id));
        let s = b.run(init);
        match events.last() {
            BrokerEventView::Subscribe(c, topics) => {
                law_subscribe_effect(s, c, topics);
            },
            BrokerEventView::UnSubscribe(c, topics) => {
                law_unsubscribe_effect(s, c, topics);
            },
            _ => {},
        }
    }
}

/// Law: once a subscriber is gone, nothing published reaches it, neither
/// under a topic nor to all, whatever follows (a late subscription included),
/// until it connects again.
pub proof fn law_gone_peer_receives_nothing(b: BrokerView, id: usize, events: Seq<BrokerEventView>)
    requires
        forall|k: int| 0 <= k < events.len() ==> !connects(#[trigger] events[k], id),
    ensures
        forall|k: int|
            0 <= k < events.len() ==> b.without_peer(id).run(events.take(k)).delivered_topic(
                #[trigger] events[k],
                id,
            ) is None,
{
    assert forall|k: int| 0 <= k < events.len() implies b.without_peer(id).run(
        events.take(k),
    ).delivered_topic(#[trigger] events[k], id) is None by {
        let pre = events.take(k);
        assert forall|j: int| 0 <= j < pre.len() implies !connects(#[trigger] pre[j], id) by {
            assert(pre[j] == events[j]);
        }
        lemma_run_keeps_peer_out(b.without_peer(id), id, pre);
    }
}

/// Every subscription that `event` makes for `id` is to a topic of `allowed`.
pub open spec fn subscribes_within(event: BrokerEventView, id: usize, allowed: Set<Seq<char>>) -> bool {
    match event {
        BrokerEventView::Subscribe(c, topics) => c == id ==> forall|t: Seq<char>| #[trigger]
            topics.contains(t) ==> allowed.contains(t),
        _ => true,
    }
}

/// Every topic that `id` is subscribed to is in `allowed`.
pub open spec fn subscriptions_within(b: BrokerView, id: usize, allowed: Set<Seq<char>>) -> bool {
    forall|t: Seq<char>| #[trigger] b.is_subscribed(t, id) ==> allowed.contains(t)
}

proof fn lemma_step_within(b: BrokerView, id: usize, allowed: Set<Seq<char>>, event: BrokerEventView)
    requires
        subscriptions_within(b, id, allowed),
        subscribes_within(event, id, allowed),
    ensures
        subscriptions_within(b.step(event), id, allowed),
{
    let a = b.step(event);
    match event {
        BrokerEventView::Subscribe(c, topics) => {
            law_subscribe_effect(b, c, topics);
            assert forall|t: Seq<char>| #[trigger] a.is_subscribed(t, id) implies allowed.contains(
                t,
            ) by {
                assert(b.is_subscribed(t, id) || (c == id && topics.contains(t)));
                if !b.is_subscribed(t, id) {
                    assert(topics.contains(t));
                }
            }
        },
        BrokerEventView::UnSubscribe(c, topics) => {
            law_unsubscribe_effect(b, c, topics);
            assert forall|t: Seq<char>| #[trigger] a.is_subscribed(t, id) implies allowed.contains(
                t,
            ) by {
                assert(b.is_subscribed(t, id));
            }
        },
        BrokerEventView::Disconnect(c) => {
            assert forall|t: Seq<char>| #[trigger] a.is_subscribed(t, id) implies allowed.contains(
                t,
            ) by {
                assert(b.is_subscribed(t, id));
            }
        },
        _ => {
            assert forall|t: Seq<char>| #[trigger] a.is_subscribed(t, id) implies allowed.contains(
                t,
            ) by {
                assert(b.is_subscribed(t, id));
            }
        },
    }
}

proof fn lemma_run_within(b: BrokerView, id: usize, allowed: Set<Seq<char>>, events: Seq<BrokerEventView>)
    requires
        subscriptions_within(b, id, allowed),
        forall|k: int| 0 <= k < events.len() ==> subscribes_within(#[trigger] events[k], id, allowed),
    ensures
        subscriptions_within(b.run(events), id, allowed),
    decreases events.len(),
{
    if events.len() > 0 {
        let init = events.drop_last();
        assert forall|k: int| 0 <= k < init.len() implies subscribes_within(
            #[trigger] init[k],
            id,
            allowed,
        ) by {
            assert(init[k] == events[k]);
        }
        lemma_run_within(b, id, allowed, init);
        assert(subscribes_within(events[events.len() - 1], id, allowed));
        lemma_step_within(b.run(init), id, allowed, events.last());
    }
}

/// Law: a subscriber that holds and asks for topics of `allowed` only receives
/// messages published to all, under `*`, or under a topic of `allowed`.
/// With `allowed` empty: a subscriber that never subscribes to a topic (such as
/// one that asked for every message) receives only what is published to all.
pub proof fn law_received_topics_within(
    b: BrokerView,
    id: usize,
    allowed: Set<Seq<char>>,
    events: Seq<BrokerEventView>,
)
    requires
        subscriptions_within(b, id, allowed),
        forall|k: int| 0 <= k < events.len() ==> subscribes_within(#[trigger] events[k], id, allowed),
    ensures
        forall|k: int|
            0 <= k < events.len() ==> (b.run(events.take(k)).delivered_topic(#[trigger] events[k], id)
                matches Some(t) ==> t == TOPIC_ALL@ || allowed.contains(t)),
{
    assert forall|k: int| 0 <= k < events.len() implies (b.run(events.take(k)).delivered_topic(
        #[trigger] events[k],
        id,
    ) matches Some(t) ==> t == TOPIC_ALL@ || allowed.contains(t)) by {
        let pre = events.take(k);
        assert forall|j: int| 0 <= j < pre.len() implies subscribes_within(
            #[trigger] pre[j],
            id,
            allowed,
        ) by {
            assert(pre[j] == events[j]);
        }
        lemma_run_within(b, id, allowed, pre);
        let s = b.run(pre);
        match events[k] {
            BrokerEventView::Publish(t, _) => {
                if s.recipients(t).contains(id) {
                    assert(s.is_subscribed(t, id));
                }
            },
            _ => {},
        }
    }
}

/// `event` subscribes `id` to topics that include `topic`.
pub open spec fn subscribes_to(event: BrokerEventView, id: usize, topic: Seq<char>) -> bool {
    match event {
        BrokerEventView::Subscribe(c, topics) => c == id && topics.contains(topic),
        _ => false,
    }
}

/// Law: a connected subscriber that subscribes to a topic any number of times
/// (once at least) is a recipient of that topic; since a publish lists each
/// recipient once (`Broker::handle`), it gets exactly one copy of each message
/// published under it.
pub proof fn law_repeated_subscriptions_one_recipient(
    b: BrokerView,
    id: usize,
    topic: Seq<char>,
    events: Seq<BrokerEventView>,
)
    requires
        b.peers.contains(id),
        events.len() >= 1,
        forall|k: int| 0 <= k < events.len() ==> subscribes_to(#[trigger] events[k], id, topic),
    ensures
        b.run(events).peers.contains(id),
        b.run(events).is_subscribed(topic, id),
        b.run(events).recipients(topic).contains(id),
    decreases events.len(),
{
    let init = events.drop_last();
    assert(subscribes_to(events[events.len() - 1], id, topic));
    if let BrokerEventView::Subscribe(c, topics) = events.last() {
        assert(b.run(events) == b.run(init).step(events.last()));
        if events.len() == 1 {
            assert(init =~= Seq::<BrokerEventView>::empty());
            assert(b.run(init) == b);
            law_subscribe_effect(b, c, topics);
            assert(b.run(events).is_subscribed(topic, id));
        } else {
            assert forall|k: int| 0 <= k < init.len() implies subscribes_to(
                #[trigger] init[k],
                id,
                topic,
            ) by {
                assert(init[k] == events[k]);
            }
            law_repeated_subscriptions_one_recipient(b, id, topic, init);
            law_subscribe_effect(b.run(init), c, topics);
            assert(b.run(events).is_subscribed(topic, id));
        }
    }
}

/// `event` disconnects `id`.
pub open spec fn disconnects(event: BrokerEventView, id: usize) -> bool {
    event == BrokerEventView::Disconnect(id)
}

/// Law: a subscriber stays connected until it is disconnected. So the one
/// disconnect that the writer started for a new subscriber sends at its end
/// names a connected subscriber, as `Broker::handle` requires.
pub proof fn law_connected_until_disconnect(b: BrokerView, id: usize, events: Seq<BrokerEventView>)
    requires
        forall|k: int| 0 <= k < events.len() ==> !disconnects(#[trigger] events[k], id),
    ensures
        b.with_peer(id).run(events).peers.contains(id),
    decreases events.len(),
{
    if events.len() > 0 {
        let init = events.drop_last();
        assert forall|k: int| 0 <= k < init.len() implies !disconnects(#[trigger] init[k], id) by {
            assert(init[k] == events[k]);
        }
        law_connected_until_disconnect(b, id, init);
        assert(!disconnects(events[events.len() - 1], id));
        let s = b.with_peer(id).run(init);
        match events.last() {
            BrokerEventView::Subscribe(c, topics) => {
                law_subscribe_effect(s, c, topics);
            },
            BrokerEventView::UnSubscribe(c, topics) => {
                law_unsubscribe_effect(s, c, topics);
            },
            _ => {},
        }
    }
}

} // verus!
