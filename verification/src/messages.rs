//! The messages of the protocol and their wire format: one compact JSON object
//! per line, its members in the order of the fields below, the field `msgtype`
//! written under the key `type`.
use vstd::prelude::*;

use vstd::utf8::{valid_utf8, valid_utf8_concat};

use crate::json::{
    ascii_bytes, byte_views, is_one_line, join, json_bytes, json_member, json_object,
    json_of_bytes, json_of_str, json_of_strs, json_string, json_strings, lemma_ascii_valid_utf8,
    lemma_json_array_no_newline, lemma_json_array_valid_utf8, lemma_json_of_str, no_newline,
    write_joined, COLON, COMMA, LBRACE, NEWLINE, RBRACE,
};
use crate::json_read::{law_bytes_read_back, law_string_reads_back, law_strings_read_back, read_bytes, read_str, read_strings};

verus! {

/// The protocol version that every message carries.
pub const MSG_VERSION: &'static str = "1.0.0";

/// A subscriber asks for the topics it names.
pub const MSG_TYPE_SUBSCRIBE: &'static str = "subscribe";

/// A subscriber asks for every message, whatever its topic.
pub const MSG_TYPE_SUBSCRIBE_ALL: &'static str = "subscribe_all";

/// A subscriber gives up the topics it names.
pub const MSG_TYPE_UNSUBSCRIBE: &'static str = "unsubscribe";

/// A subscriber gives up every topic.
pub const MSG_TYPE_UNSUBSCRIBE_ALL: &'static str = "unsubscribe_all";

/// A publisher sends data.
pub const MSG_TYPE_PUBLISH: &'static str = "publish";

/// The part that every message starts with.
#[derive(Debug)]
pub struct MsgHeader {
    pub version: String,
    pub msgtype: String,
}

/// A request for every message.
#[derive(Debug)]
pub struct MsgSubscribeAll {
    pub version: String,
    pub msgtype: String,
}

/// A request for the messages of some topics.
#[derive(Debug)]
pub struct MsgSubscribe {
    pub version: String,
    pub msgtype: String,
    pub topics: Vec<String>,
}

/// A request to stop the messages of some topics.
#[derive(Debug)]
pub struct MsgUnSubscribe {
    pub version: String,
    pub msgtype: String,
    pub topics: Vec<String>,
}

/// Data published under a topic by a named source.
#[derive(Debug)]
pub struct MsgPublish {
    pub version: String,
    pub msgtype: String,
    pub source: String,
    pub topic: String,
    pub data: Vec<u8>,
}

pub struct MsgHeaderView {
    pub version: Seq<char>,
    pub msgtype: Seq<char>,
}

pub struct MsgSubscribeAllView {
    pub version: Seq<char>,
    pub msgtype: Seq<char>,
}

pub struct MsgSubscribeView {
    pub version: Seq<char>,
    pub msgtype: Seq<char>,
    pub topics: Seq<Seq<char>>,
}

pub struct MsgUnSubscribeView {
    pub version: Seq<char>,
    pub msgtype: Seq<char>,
    pub topics: Seq<Seq<char>>,
}

pub struct MsgPublishView {
    pub version: Seq<char>,
    pub msgtype: Seq<char>,
    pub source: Seq<char>,
    pub topic: Seq<char>,
    pub data: Seq<u8>,
}

impl View for MsgHeader {
    type V = MsgHeaderView;

    open spec fn view(&self) -> MsgHeaderView {
        MsgHeaderView { version: self.version@, msgtype: self.msgtype@ }
    }
}

impl View for MsgSubscribeAll {
    type V = MsgSubscribeAllView;

    open spec fn view(&self) -> MsgSubscribeAllView {
        MsgSubscribeAllView { version: self.version@, msgtype: self.msgtype@ }
    }
}

impl View for MsgSubscribe {
    type V = MsgSubscribeView;

    open spec fn view(&self) -> MsgSubscribeView {
        MsgSubscribeView {
            version: self.version@,
            msgtype: self.msgtype@,
            topics: self.topics.deep_view(),
        }
    }
}

impl View for MsgUnSubscribe {
    type V = MsgUnSubscribeView;

    open spec fn view(&self) -> MsgUnSubscribeView {
        MsgUnSubscribeView {
            version: self.version@,
            msgtype: self.msgtype@,
            topics: self.topics.deep_view(),
        }
    }
}

impl View for MsgPublish {
    type V = MsgPublishView;

    open spec fn view(&self) -> MsgPublishView {
        MsgPublishView {
            version: self.version@,
            msgtype: self.msgtype@,
            source: self.source@,
            topic: self.topic@,
            data: self.data@,
        }
    }
}

/// The members `"version"` and `"type"` that every message starts with.
pub open spec fn header_members(version: Seq<char>, msgtype: Seq<char>) -> Seq<Seq<u8>> {
    seq![json_member("version"@, json_of_str(version)), json_member("type"@, json_of_str(msgtype))]
}

/// A message on the wire: its JSON object, then a newline.
pub open spec fn wire_line(json: Seq<u8>) -> Seq<u8> {
    json.push(NEWLINE)
}

impl MsgSubscribeAllView {
    pub open spec fn json(self) -> Seq<u8> {
        json_object(header_members(self.version, self.msgtype))
    }
}

impl MsgSubscribeView {
    pub open spec fn json(self) -> Seq<u8> {
        json_object(
            header_members(self.version, self.msgtype) + seq![
                json_member("topics"@, json_of_strs(self.topics)),
            ],
        )
    }
}

impl MsgUnSubscribeView {
    pub open spec fn json(self) -> Seq<u8> {
        json_object(
            header_members(self.version, self.msgtype) + seq![
                json_member("topics"@, json_of_strs(self.topics)),
            ],
        )
    }
}

impl MsgPublishView {
    pub open spec fn json(self) -> Seq<u8> {
        json_object(
            header_members(self.version, self.msgtype) + seq![
                json_member("source"@, json_of_str(self.source)),
                json_member("topic"@, json_of_str(self.topic)),
                json_member("data"@, json_of_bytes(self.data)),
            ],
        )
    }
}

/// The member `"key":value`.
pub fn member(key: &str, value: Vec<u8>) -> (res: Vec<u8>)
    requires
        no_newline(value@),
        valid_utf8(value@),
    ensures
        res@ == json_member(key@, value@),
        no_newline(res@),
        valid_utf8(res@),
{
    let mut res = json_string(key);
    let ghost key_bytes = res@;
    res.push(COLON);
    let mut value = value;
    let ghost k = res@;
    let ghost v = value@;
    res.append(&mut value);
    proof {
        assert forall|i: int| 0 <= i < res@.len() implies res@[i] != NEWLINE by {
            if i < k.len() {
                assert(res@[i] == k[i]);
            } else {
                assert(res@[i] == v[i - k.len()]);
            }
        }
        assert(key_bytes + seq![COLON] =~= k);
        lemma_ascii_valid_utf8(seq![COLON]);
        valid_utf8_concat(key_bytes, seq![COLON]);
        valid_utf8_concat(k, v);
        assert(res@ =~= k + v);
    }
    res
}

/// The JSON object of the members.
pub fn object(members: &Vec<Vec<u8>>) -> (res: Vec<u8>)
    requires
        forall|i: int| 0 <= i < members@.len() ==> no_newline(#[trigger] members@[i]@),
        forall|i: int| 0 <= i < members@.len() ==> valid_utf8(#[trigger] members@[i]@),
    ensures
        res@ == json_object(byte_views(members@)),
        no_newline(res@),
        valid_utf8(res@),
{
    let mut out: Vec<u8> = Vec::new();
    out.push(LBRACE);
    write_joined(&mut out, members, COMMA);
    out.push(RBRACE);
    proof {
        assert(out@ =~= json_object(byte_views(members@)));
        assert forall|i: int| 0 <= i < byte_views(members@).len() implies no_newline(
            #[trigger] byte_views(members@)[i],
        ) by {
            assert(byte_views(members@)[i] == members@[i]@);
        }
        lemma_json_array_no_newline(byte_views(members@));
        assert forall|i: int| 0 <= i < byte_views(members@).len() implies valid_utf8(
            #[trigger] byte_views(members@)[i],
        ) by {
            assert(byte_views(members@)[i] == members@[i]@);
        }
        lemma_json_array_valid_utf8(byte_views(members@));
    }
    out
}

/// Ends a message with a newline.
pub fn finish_line(json: Vec<u8>) -> (res: Vec<u8>)
    requires
        no_newline(json@),
        valid_utf8(json@),
    ensures
        res@ == wire_line(json@),
        is_one_line(res@),
        valid_utf8(res@),
{
    let ghost j = json@;
    let mut res = json;
    res.push(NEWLINE);
    proof {
        assert(res@.drop_last() =~= j);
        lemma_ascii_valid_utf8(seq![NEWLINE]);
        valid_utf8_concat(j, seq![NEWLINE]);
        assert(j + seq![NEWLINE] =~= res@);
    }
    res
}

impl MsgSubscribeAll {
    /// The message as a JSON object.
    pub fn to_json(&self) -> (res: Vec<u8>)
        ensures
            res@ == self@.json(),
            no_newline(res@),
            valid_utf8(res@),
    {
        let mut members: Vec<Vec<u8>> = Vec::new();
        members.push(member("version", json_string(self.version.as_str())));
        members.push(member("type", json_string(self.msgtype.as_str())));
        let res = object(&members);
        assert(byte_views(members@) =~= header_members(self.version@, self.msgtype@));
        res
    }

    /// The line that asks a publisher for every message.
    pub fn encode() -> (res: Vec<u8>)
        ensures
            res@ == wire_line(
                MsgSubscribeAllView { version: MSG_VERSION@, msgtype: MSG_TYPE_SUBSCRIBE_ALL@ }.json(),
            ),
            res@ == ascii_bytes("{\"version\":\"1.0.0\",\"type\":\"subscribe_all\"}\n"@),
            is_one_line(res@),
            valid_utf8(res@),
    {
        proof {
            law_subscribe_all_line();
        }
        let msg = MsgSubscribeAll {
            version: MSG_VERSION.to_string(),
            msgtype: MSG_TYPE_SUBSCRIBE_ALL.to_string(),
        };
        finish_line(msg.to_json())
    }
}

impl MsgSubscribe {
    /// The message as a JSON object.
    pub fn to_json(&self) -> (res: Vec<u8>)
        ensures
            res@ == self@.json(),
            no_newline(res@),
            valid_utf8(res@),
    {
        let mut members: Vec<Vec<u8>> = Vec::new();
        members.push(member("version", json_string(self.version.as_str())));
        members.push(member("type", json_string(self.msgtype.as_str())));
        members.push(member("topics", json_strings(&self.topics)));
        let res = object(&members);
        assert(byte_views(members@) =~= header_members(self.version@, self.msgtype@) + seq![
            json_member("topics"@, json_of_strs(self.topics.deep_view())),
        ]);
        res
    }

    /// The line that asks for the messages of `topics`.
    pub fn encode(topics: Vec<String>) -> (res: Vec<u8>)
        ensures
            res@ == wire_line(
                MsgSubscribeView {
                    version: MSG_VERSION@,
                    msgtype: MSG_TYPE_SUBSCRIBE@,
                    topics: topics.deep_view(),
                }.json(),
            ),
            res@ == subscribe_prefix() + json_of_strs(topics.deep_view()) + line_end(),
            is_one_line(res@),
            valid_utf8(res@),
    {
        proof {
            law_subscribe_line(topics.deep_view());
        }
        let msg = MsgSubscribe {
            version: MSG_VERSION.to_string(),
            msgtype: MSG_TYPE_SUBSCRIBE.to_string(),
            topics: topics,
        };
        finish_line(msg.to_json())
    }
}

impl MsgUnSubscribe {
    /// The message as a JSON object.
    pub fn to_json(&self) -> (res: Vec<u8>)
        ensures
            res@ == self@.json(),
            no_newline(res@),
            valid_utf8(res@),
    {
        let mut members: Vec<Vec<u8>> = Vec::new();
        members.push(member("version", json_string(self.version.as_str())));
        members.push(member("type", json_string(self.msgtype.as_str())));
        members.push(member("topics", json_strings(&self.topics)));
        let res = object(&members);
        assert(byte_views(members@) =~= header_members(self.version@, self.msgtype@) + seq![
            json_member("topics"@, json_of_strs(self.topics.deep_view())),
        ]);
        res
    }

    /// The line that gives up the messages of `topics`.
    pub fn encode(topics: Vec<String>) -> (res: Vec<u8>)
        ensures
            res@ == wire_line(
                MsgUnSubscribeView {
                    version: MSG_VERSION@,
                    msgtype: MSG_TYPE_UNSUBSCRIBE@,
                    topics: topics.deep_view(),
                }.json(),
            ),
            res@ == unsubscribe_prefix() + json_of_strs(topics.deep_view()) + line_end(),
            is_one_line(res@),
            valid_utf8(res@),
    {
        proof {
            law_unsubscribe_line(topics.deep_view());
        }
        let msg = MsgUnSubscribe {
            version: MSG_VERSION.to_string(),
            msgtype: MSG_TYPE_UNSUBSCRIBE.to_string(),
            topics: topics,
        };
        finish_line(msg.to_json())
    }
}

impl MsgPublish {
    /// The message as a JSON object.
    pub fn to_json(&self) -> (res: Vec<u8>)
        ensures
            res@ == self@.json(),
            no_newline(res@),
            valid_utf8(res@),
    {
        let mut members: Vec<Vec<u8>> = Vec::new();
        members.push(member("version", json_string(self.version.as_str())));
        members.push(member("type", json_string(self.msgtype.as_str())));
        members.push(member("source", json_string(self.source.as_str())));
        members.push(member("topic", json_string(self.topic.as_str())));
        members.push(member("data", json_bytes(&self.data)));
        let res = object(&members);
        assert(byte_views(members@) =~= header_members(self.version@, self.msgtype@) + seq![
            json_member("source"@, json_of_str(self.source@)),
            json_member("topic"@, json_of_str(self.topic@)),
            json_member("data"@, json_of_bytes(self.data@)),
        ]);
        res
    }

    /// The line that carries `data`, published by `source` under `topic`.
    pub fn encode(source: &str, topic: &str, data: Vec<u8>) -> (res: Vec<u8>)
        ensures
            res@ == wire_line(
                MsgPublishView {
                    version: MSG_VERSION@,
                    msgtype: MSG_TYPE_PUBLISH@,
                    source: source@,
                    topic: topic@,
                    data: data@,
                }.json(),
            ),
            res@ == publish_prefix() + json_of_str(source@) + publish_before_topic() + json_of_str(
                topic@,
            ) + publish_before_data() + json_of_bytes(data@) + line_end(),
            is_one_line(res@),
            valid_utf8(res@),
    {
        proof {
            law_publish_line(source@, topic@, data@);
        }
        let msg = MsgPublish {
            version: MSG_VERSION.to_string(),
            msgtype: MSG_TYPE_PUBLISH.to_string(),
            source: source.to_string(),
            topic: topic.to_string(),
            data: data,
        };
        finish_line(msg.to_json())
    }
}

/// The JSON string literal of plain text is the text between quotes.
proof fn lemma_plain_literal(s: Seq<char>)
    requires
        forall|i: int| 0 <= i < s.len() ==> crate::json::is_plain_char(#[trigger] s[i]),
    ensures
        json_of_str(s) == seq![crate::json::QUOTE] + ascii_bytes(s) + seq![crate::json::QUOTE],
{
    lemma_json_of_str(s);
}

/// Three members joined by commas.
proof fn lemma_join3(a: Seq<u8>, b: Seq<u8>, c: Seq<u8>)
    ensures
        join(seq![a, b, c], COMMA) == a + seq![COMMA] + b + seq![COMMA] + c,
{
    let m = seq![a, b, c];
    assert(m.drop_last() =~= seq![a, b]);
    assert(seq![a, b].drop_last() =~= seq![a]);
    assert(join(seq![a], COMMA) == a);
    assert(join(seq![a, b], COMMA) =~= a + seq![COMMA] + b);
    assert(join(m, COMMA) =~= a + seq![COMMA] + b + seq![COMMA] + c);
}

/// The members `"version":"1.0.0"` and `"type":"<type>"`, for a plain type.
proof fn lemma_header_members(msgtype: Seq<char>)
    requires
        forall|i: int| 0 <= i < msgtype.len() ==> crate::json::is_plain_char(#[trigger] msgtype[i]),
    ensures
        header_members(MSG_VERSION@, msgtype) == seq![
            ascii_bytes("\"version\":\"1.0.0\""@),
            seq![crate::json::QUOTE] + ascii_bytes("type"@) + seq![crate::json::QUOTE, COLON, crate::json::QUOTE]
                + ascii_bytes(msgtype) + seq![crate::json::QUOTE],
        ],
{
    reveal_strlit("version");
    reveal_strlit("type");
    reveal_strlit("1.0.0");
    reveal_strlit("\"version\":\"1.0.0\"");
    lemma_plain_literal("version"@);
    lemma_plain_literal("type"@);
    lemma_plain_literal("1.0.0"@);
    lemma_plain_literal(msgtype);
    assert(json_member("version"@, json_of_str(MSG_VERSION@)) =~= ascii_bytes(
        "\"version\":\"1.0.0\""@,
    ));
    assert(json_member("type"@, json_of_str(msgtype)) =~= seq![crate::json::QUOTE] + ascii_bytes(
        "type"@,
    ) + seq![crate::json::QUOTE, COLON, crate::json::QUOTE] + ascii_bytes(msgtype) + seq![
        crate::json::QUOTE,
    ]);
}

/// The text that every subscribe line starts with.
pub open spec fn subscribe_prefix() -> Seq<u8> {
    ascii_bytes("{\"version\":\"1.0.0\",\"type\":\"subscribe\",\"topics\":"@)
}

#[verifier::rlimit(50)]
proof fn lemma_subscribe_prefix()
    ensures
        subscribe_prefix() == seq![LBRACE] + ascii_bytes("\"version\":\"1.0.0\""@) + seq![COMMA]
            + (seq![crate::json::QUOTE] + ascii_bytes("type"@) + seq![crate::json::QUOTE, COLON, crate::json::QUOTE]
            + ascii_bytes("subscribe"@) + seq![crate::json::QUOTE]) + seq![COMMA] + (seq![
            crate::json::QUOTE,
        ] + ascii_bytes("topics"@) + seq![crate::json::QUOTE] + seq![COLON]),
{
    reveal_strlit("{\"version\":\"1.0.0\",\"type\":\"subscribe\",\"topics\":");
    reveal_strlit("\"version\":\"1.0.0\"");
    reveal_strlit("type");
    reveal_strlit("subscribe");
    reveal_strlit("topics");
    assert(subscribe_prefix() =~= seq![LBRACE] + ascii_bytes("\"version\":\"1.0.0\""@) + seq![COMMA]
        + (seq![crate::json::QUOTE] + ascii_bytes("type"@) + seq![crate::json::QUOTE, COLON, crate::json::QUOTE]
        + ascii_bytes("subscribe"@) + seq![crate::json::QUOTE]) + seq![COMMA] + (seq![
        crate::json::QUOTE,
    ] + ascii_bytes("topics"@) + seq![crate::json::QUOTE] + seq![COLON]));
}

/// The text that every unsubscribe line starts with.
pub open spec fn unsubscribe_prefix() -> Seq<u8> {
    ascii_bytes("{\"version\":\"1.0.0\",\"type\":\"unsubscribe\",\"topics\":"@)
}

#[verifier::rlimit(50)]
proof fn lemma_unsubscribe_prefix()
    ensures
        unsubscribe_prefix() == seq![LBRACE] + ascii_bytes("\"version\":\"1.0.0\""@) + seq![COMMA]
            + (seq![crate::json::QUOTE] + ascii_bytes("type"@) + seq![crate::json::QUOTE, COLON, crate::json::QUOTE]
            + ascii_bytes("unsubscribe"@) + seq![crate::json::QUOTE]) + seq![COMMA] + (seq![
            crate::json::QUOTE,
        ] + ascii_bytes("topics"@) + seq![crate::json::QUOTE] + seq![COLON]),
{
    reveal_strlit("{\"version\":\"1.0.0\",\"type\":\"unsubscribe\",\"topics\":");
    reveal_strlit("\"version\":\"1.0.0\"");
    reveal_strlit("type");
    reveal_strlit("unsubscribe");
    reveal_strlit("topics");
    assert(unsubscribe_prefix() =~= seq![LBRACE] + ascii_bytes("\"version\":\"1.0.0\""@) + seq![COMMA]
        + (seq![crate::json::QUOTE] + ascii_bytes("type"@) + seq![crate::json::QUOTE, COLON, crate::json::QUOTE]
        + ascii_bytes("unsubscribe"@) + seq![crate::json::QUOTE]) + seq![COMMA] + (seq![
        crate::json::QUOTE,
    ] + ascii_bytes("topics"@) + seq![crate::json::QUOTE] + seq![COLON]));
}

/// The end of every line: `}` and a newline.
pub open spec fn line_end() -> Seq<u8> {
    ascii_bytes("}\n"@)
}

proof fn lemma_line_end()
    ensures
        line_end() == seq![RBRACE, NEWLINE],
{
    reveal_strlit("}\n");
    assert(line_end() =~= seq![RBRACE, NEWLINE]);
}

/// Law: the subscribe line for `topics` is the fixed text
/// `{"version":"1.0.0","type":"subscribe","topics":`, then the JSON array of
/// the topics, then `}` and a newline; and that array reads back as exactly
/// the topics, all of them, in order.
pub proof fn law_subscribe_line(topics: Seq<Seq<char>>)
    ensures
        wire_line(
            MsgSubscribeView { version: MSG_VERSION@, msgtype: MSG_TYPE_SUBSCRIBE@, topics }.json(),
        ) == subscribe_prefix() + json_of_strs(topics) + line_end(),
        read_strings(json_of_strs(topics)) == Some(topics),
{
    reveal_strlit("subscribe");
    reveal_strlit("topics");
    lemma_header_members(MSG_TYPE_SUBSCRIBE@);
    lemma_plain_literal("topics"@);
    let h = header_members(MSG_VERSION@, MSG_TYPE_SUBSCRIBE@);
    let m = json_member("topics"@, json_of_strs(topics));
    assert(h + seq![m] =~= seq![h[0], h[1], m]);
    lemma_join3(h[0], h[1], m);
    lemma_subscribe_prefix();
    lemma_line_end();
    assert(wire_line(
        MsgSubscribeView { version: MSG_VERSION@, msgtype: MSG_TYPE_SUBSCRIBE@, topics }.json(),
    ) =~= subscribe_prefix() + json_of_strs(topics) + line_end());
    law_strings_read_back(topics);
}

/// Law: the unsubscribe line for `topics` is the fixed text
/// `{"version":"1.0.0","type":"unsubscribe","topics":`, then the JSON array
/// of the topics, then `}` and a newline; and that array reads back as exactly
/// the topics, all of them, in order.
pub proof fn law_unsubscribe_line(topics: Seq<Seq<char>>)
    ensures
        wire_line(
            MsgUnSubscribeView {
                version: MSG_VERSION@,
                msgtype: MSG_TYPE_UNSUBSCRIBE@,
                topics,
            }.json(),
        ) == unsubscribe_prefix() + json_of_strs(topics) + line_end(),
        read_strings(json_of_strs(topics)) == Some(topics),
{
    reveal_strlit("unsubscribe");
    reveal_strlit("topics");
    lemma_header_members(MSG_TYPE_UNSUBSCRIBE@);
    lemma_plain_literal("topics"@);
    let h = header_members(MSG_VERSION@, MSG_TYPE_UNSUBSCRIBE@);
    let m = json_member("topics"@, json_of_strs(topics));
    assert(h + seq![m] =~= seq![h[0], h[1], m]);
    lemma_join3(h[0], h[1], m);
    lemma_unsubscribe_prefix();
    lemma_line_end();
    assert(wire_line(
        MsgUnSubscribeView { version: MSG_VERSION@, msgtype: MSG_TYPE_UNSUBSCRIBE@, topics }.json(),
    ) =~= unsubscribe_prefix() + json_of_strs(topics) + line_end());
    law_strings_read_back(topics);
}

/// Five members joined by commas.
proof fn lemma_join5(a: Seq<u8>, b: Seq<u8>, c: Seq<u8>, d: Seq<u8>, e: Seq<u8>)
    ensures
        join(seq![a, b, c, d, e], COMMA) == a + seq![COMMA] + b + seq![COMMA] + c + seq![COMMA] + d
            + seq![COMMA] + e,
{
    let m = seq![a, b, c, d, e];
    lemma_join3(a, b, c);
    assert(m.drop_last() =~= seq![a, b, c, d]);
    assert(seq![a, b, c, d].drop_last() =~= seq![a, b, c]);
    assert(join(seq![a, b, c, d], COMMA) =~= a + seq![COMMA] + b + seq![COMMA] + c + seq![COMMA]
        + d);
    assert(join(m, COMMA) =~= a + seq![COMMA] + b + seq![COMMA] + c + seq![COMMA] + d + seq![COMMA]
        + e);
}

/// The text that every publish line starts with, up to the source.
pub open spec fn publish_prefix() -> Seq<u8> {
    ascii_bytes("{\"version\":\"1.0.0\",\"type\":\"publish\",\"source\":"@)
}

/// The text between the source and the topic of a publish line.
pub open spec fn publish_before_topic() -> Seq<u8> {
    ascii_bytes(",\"topic\":"@)
}

/// The text between the topic and the data of a publish line.
pub open spec fn publish_before_data() -> Seq<u8> {
    ascii_bytes(",\"data\":"@)
}

#[verifier::rlimit(50)]
proof fn lemma_publish_texts()
    ensures
        publish_prefix() == seq![LBRACE] + ascii_bytes("\"version\":\"1.0.0\""@) + seq![COMMA]
            + (seq![crate::json::QUOTE] + ascii_bytes("type"@) + seq![crate::json::QUOTE, COLON, crate::json::QUOTE]
            + ascii_bytes("publish"@) + seq![crate::json::QUOTE]) + seq![COMMA] + (seq![
            crate::json::QUOTE,
        ] + ascii_bytes("source"@) + seq![crate::json::QUOTE] + seq![COLON]),
        publish_before_topic() == seq![COMMA] + (seq![crate::json::QUOTE] + ascii_bytes("topic"@)
            + seq![crate::json::QUOTE] + seq![COLON]),
        publish_before_data() == seq![COMMA] + (seq![crate::json::QUOTE] + ascii_bytes("data"@)
            + seq![crate::json::QUOTE] + seq![COLON]),
{
    reveal_strlit("{\"version\":\"1.0.0\",\"type\":\"publish\",\"source\":");
    reveal_strlit(",\"topic\":");
    reveal_strlit(",\"data\":");
    reveal_strlit("\"version\":\"1.0.0\"");
    reveal_strlit("type");
    reveal_strlit("publish");
    reveal_strlit("source");
    reveal_strlit("topic");
    reveal_strlit("data");
    assert(publish_prefix() =~= seq![LBRACE] + ascii_bytes("\"version\":\"1.0.0\""@) + seq![COMMA]
        + (seq![crate::json::QUOTE] + ascii_bytes("type"@) + seq![crate::json::QUOTE, COLON, crate::json::QUOTE]
        + ascii_bytes("publish"@) + seq![crate::json::QUOTE]) + seq![COMMA] + (seq![
        crate::json::QUOTE,
    ] + ascii_bytes("source"@) + seq![crate::json::QUOTE] + seq![COLON]));
    assert(publish_before_topic() =~= seq![COMMA] + (seq![crate::json::QUOTE] + ascii_bytes(
        "topic"@,
    ) + seq![crate::json::QUOTE] + seq![COLON]));
    assert(publish_before_data() =~= seq![COMMA] + (seq![crate::json::QUOTE] + ascii_bytes(
        "data"@,
    ) + seq![crate::json::QUOTE] + seq![COLON]));
}

/// Law: the publish line for `source`, `topic` and `data` is the fixed text
/// `{"version":"1.0.0","type":"publish","source":`, the source's literal,
/// `,"topic":`, the topic's literal, `,"data":`, the array of the data, then
/// `}` and a newline; the two literals read back as exactly the source and the
/// topic, and the array as exactly the data, every byte in order.
pub proof fn law_publish_line(source: Seq<char>, topic: Seq<char>, data: Seq<u8>)
    ensures
        wire_line(
            MsgPublishView {
                version: MSG_VERSION@,
                msgtype: MSG_TYPE_PUBLISH@,
                source,
                topic,
                data,
            }.json(),
        ) == publish_prefix() + json_of_str(source) + publish_before_topic() + json_of_str(topic)
            + publish_before_data() + json_of_bytes(data) + line_end(),
        read_str(json_of_str(source)) matches Some((bytes, _)) && vstd::utf8::decode_utf8(bytes)
            == source,
        read_str(json_of_str(topic)) matches Some((bytes, _)) && vstd::utf8::decode_utf8(bytes)
            == topic,
        read_bytes(json_of_bytes(data)) == Some(data),
{
    reveal_strlit("publish");
    reveal_strlit("source");
    reveal_strlit("topic");
    reveal_strlit("data");
    lemma_header_members(MSG_TYPE_PUBLISH@);
    lemma_plain_literal("source"@);
    lemma_plain_literal("topic"@);
    lemma_plain_literal("data"@);
    let h = header_members(MSG_VERSION@, MSG_TYPE_PUBLISH@);
    let m3 = json_member("source"@, json_of_str(source));
    let m4 = json_member("topic"@, json_of_str(topic));
    let m5 = json_member("data"@, json_of_bytes(data));
    assert(h + seq![m3, m4, m5] =~= seq![h[0], h[1], m3, m4, m5]);
    lemma_join5(h[0], h[1], m3, m4, m5);
    lemma_publish_texts();
    lemma_line_end();
    assert(wire_line(
        MsgPublishView {
            version: MSG_VERSION@,
            msgtype: MSG_TYPE_PUBLISH@,
            source,
            topic,
            data,
        }.json(),
    ) =~= publish_prefix() + json_of_str(source) + publish_before_topic() + json_of_str(topic)
        + publish_before_data() + json_of_bytes(data) + line_end());
    law_string_reads_back(source);
    law_string_reads_back(topic);
    law_bytes_read_back(data);
}

/// Law: the line that asks for every message is exactly
/// `{"version":"1.0.0","type":"subscribe_all"}` and a newline.
pub proof fn law_subscribe_all_line()
    ensures
        wire_line(
            MsgSubscribeAllView { version: MSG_VERSION@, msgtype: MSG_TYPE_SUBSCRIBE_ALL@ }.json(),
        ) == ascii_bytes("{\"version\":\"1.0.0\",\"type\":\"subscribe_all\"}\n"@),
{
    reveal_strlit("subscribe_all");
    reveal_strlit("type");
    reveal_strlit("\"version\":\"1.0.0\"");
    reveal_strlit("{\"version\":\"1.0.0\",\"type\":\"subscribe_all\"}\n");
    lemma_header_members(MSG_TYPE_SUBSCRIBE_ALL@);
    let h = header_members(MSG_VERSION@, MSG_TYPE_SUBSCRIBE_ALL@);
    assert(h.len() == 2);
    assert(h.drop_last() =~= seq![h[0]]);
    assert(join(seq![h[0]], COMMA) == h[0]);
    assert(join(h, COMMA) == join(h.drop_last(), COMMA).push(COMMA) + h.last());
    assert(join(h, COMMA) =~= h[0] + seq![COMMA] + h[1]);
    assert(wire_line(
        MsgSubscribeAllView { version: MSG_VERSION@, msgtype: MSG_TYPE_SUBSCRIBE_ALL@ }.json(),
    ) =~= ascii_bytes("{\"version\":\"1.0.0\",\"type\":\"subscribe_all\"}\n"@));
}

} // verus!
