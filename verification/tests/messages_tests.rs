use psmsg::json::{json_bytes, json_string, json_strings};
use psmsg::messages::{finish_line, member, object};
use psmsg::messages::{
    MsgPublish, MsgSubscribe, MsgSubscribeAll, MsgUnSubscribe, MSG_TYPE_PUBLISH,
    MSG_TYPE_SUBSCRIBE, MSG_TYPE_SUBSCRIBE_ALL, MSG_TYPE_UNSUBSCRIBE, MSG_TYPE_UNSUBSCRIBE_ALL,
    MSG_VERSION,
};

fn strings(v: &[&str]) -> Vec<String> {
    v.iter().map(|s| s.to_string()).collect()
}

fn newlines(bytes: &[u8]) -> usize {
    bytes.iter().filter(|b| **b == b'\n').count()
}

#[test]
fn it_works() {
    assert_eq!(2 + 2, 4);
}

#[test]
fn constants_have_their_values() {
    assert_eq!(MSG_VERSION, "1.0.0");
    assert_eq!(MSG_TYPE_SUBSCRIBE, "subscribe");
    assert_eq!(MSG_TYPE_SUBSCRIBE_ALL, "subscribe_all");
    assert_eq!(MSG_TYPE_UNSUBSCRIBE, "unsubscribe");
    assert_eq!(MSG_TYPE_UNSUBSCRIBE_ALL, "unsubscribe_all");
    assert_eq!(MSG_TYPE_PUBLISH, "publish");
}

#[test]
fn subscribe_encodes_as_one_json_line() {
    let line = MsgSubscribe::encode(strings(&["t2", "t1"]));
    assert_eq!(
        line,
        b"{\"version\":\"1.0.0\",\"type\":\"subscribe\",\"topics\":[\"t2\",\"t1\"]}\n".to_vec()
    );
}

#[test]
fn subscribe_with_no_topic_encodes_an_empty_array() {
    let line = MsgSubscribe::encode(Vec::new());
    assert_eq!(
        line,
        b"{\"version\":\"1.0.0\",\"type\":\"subscribe\",\"topics\":[]}\n".to_vec()
    );
}

#[test]
fn unsubscribe_encodes_as_one_json_line() {
    let line = MsgUnSubscribe::encode(strings(&["t1"]));
    assert_eq!(
        line,
        b"{\"version\":\"1.0.0\",\"type\":\"unsubscribe\",\"topics\":[\"t1\"]}\n".to_vec()
    );
}

#[test]
fn subscribe_all_encodes_as_one_json_line() {
    let line = MsgSubscribeAll::encode();
    assert_eq!(line, b"{\"version\":\"1.0.0\",\"type\":\"subscribe_all\"}\n".to_vec());
}

#[test]
fn publish_encodes_data_as_numbers() {
    let line = MsgPublish::encode("s5", "t1", b"12".to_vec());
    assert_eq!(
        line,
        b"{\"version\":\"1.0.0\",\"type\":\"publish\",\"source\":\"s5\",\"topic\":\"t1\",\"data\":[49,50]}\n"
            .to_vec()
    );
}

#[test]
fn publish_to_all_uses_the_star_topic() {
    let line = MsgPublish::encode("srv", "*", Vec::new());
    assert_eq!(
        line,
        b"{\"version\":\"1.0.0\",\"type\":\"publish\",\"source\":\"srv\",\"topic\":\"*\",\"data\":[]}\n"
            .to_vec()
    );
}

#[test]
fn a_newline_inside_a_field_is_escaped() {
    let line = MsgPublish::encode("a\nb", "quote\"and\\slash", vec![10, 0, 255]);
    assert_eq!(newlines(&line), 1);
    assert_eq!(*line.last().unwrap(), b'\n');
    let value: serde_json::Value = serde_json::from_slice(&line[..line.len() - 1]).unwrap();
    assert_eq!(value["source"], "a\nb");
    assert_eq!(value["topic"], "quote\"and\\slash");
    let data: Vec<u64> = value["data"].as_array().unwrap().iter().map(|v| v.as_u64().unwrap()).collect();
    assert_eq!(data, vec![10, 0, 255]);
}

#[test]
fn encoded_messages_read_back_as_the_same_fields() {
    let topics = strings(&["t1", "é", ""]);
    let line = MsgSubscribe::encode(topics.clone());
    assert_eq!(newlines(&line), 1);
    let value: serde_json::Value = serde_json::from_slice(&line).unwrap();
    assert_eq!(value["version"], "1.0.0");
    assert_eq!(value["type"], "subscribe");
    let back: Vec<String> =
        value["topics"].as_array().unwrap().iter().map(|v| v.as_str().unwrap().to_string()).collect();
    assert_eq!(back, topics);
}

#[test]
fn to_json_writes_the_fields_as_they_are() {
    let msg = MsgPublish {
        version: "0.9".to_string(),
        msgtype: "other".to_string(),
        source: "s".to_string(),
        topic: "t".to_string(),
        data: vec![7],
    };
    assert_eq!(
        msg.to_json(),
        b"{\"version\":\"0.9\",\"type\":\"other\",\"source\":\"s\",\"topic\":\"t\",\"data\":[7]}".to_vec()
    );
}

#[test]
fn json_pieces_match_serde_json() {
    assert_eq!(json_string("plain"), b"\"plain\"".to_vec());
    assert_eq!(json_string("a\tb\n"), b"\"a\\tb\\n\"".to_vec());
    assert_eq!(json_strings(&strings(&["x", "y"])), b"[\"x\",\"y\"]".to_vec());
    assert_eq!(json_strings(&Vec::new()), b"[]".to_vec());
    assert_eq!(json_bytes(&vec![0, 9, 10, 99, 100, 255]), b"[0,9,10,99,100,255]".to_vec());
    assert_eq!(json_bytes(&Vec::new()), b"[]".to_vec());
}

#[test]
fn encoded_lines_are_valid_utf8() {
    let line = MsgSubscribe::encode(strings(&["日本", "\u{1F600}", "a\"b"]));
    assert!(std::str::from_utf8(&line).is_ok());
    let line = MsgPublish::encode("ß", "\u{7f}\u{1}", vec![0, 128, 255]);
    assert!(std::str::from_utf8(&line).is_ok());
    assert_eq!(newlines(&line), 1);
}

#[test]
fn json_string_escapes_as_stated() {
    assert_eq!(json_string("\"\\"), b"\"\\\"\\\\\"".to_vec());
    assert_eq!(json_string("\u{8}\u{c}\r"), b"\"\\b\\f\\r\"".to_vec());
    assert_eq!(json_string("\u{1}\u{1f}\u{b}"), b"\"\\u0001\\u001f\\u000b\"".to_vec());
    assert_eq!(json_string("\u{7f}/é"), "\"\u{7f}/é\"".as_bytes().to_vec());
    assert_eq!(json_strings(&strings(&["a\nb"])), b"[\"a\\nb\"]".to_vec());
}

#[test]
fn layout_steps_build_one_line() {
    let m1 = member("k", json_string("v\n"));
    assert_eq!(m1, b"\"k\":\"v\\n\"".to_vec());
    let m2 = member("n", json_bytes(&vec![3]));
    let obj = object(&vec![m1, m2]);
    assert_eq!(obj, b"{\"k\":\"v\\n\",\"n\":[3]}".to_vec());
    assert_eq!(object(&Vec::new()), b"{}".to_vec());
    let line = finish_line(obj);
    assert_eq!(line, b"{\"k\":\"v\\n\",\"n\":[3]}\n".to_vec());
    let value: serde_json::Value = serde_json::from_slice(&line).unwrap();
    assert_eq!(value["k"], "v\n");
}

#[test]
fn messages_can_be_printed_for_debugging() {
    let msg = MsgUnSubscribe {
        version: "1.0.0".to_string(),
        msgtype: "unsubscribe".to_string(),
        topics: strings(&["t"]),
    };
    assert!(format!("{:?}", msg).contains("unsubscribe"));
}
