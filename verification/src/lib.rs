//! A small publish/subscribe library over TCP.
//!
//! A publisher accepts subscribers, records which topics each asks for, and
//! sends each message it publishes to the connected subscribers of its topic,
//! or to all of them. Messages travel as one compact JSON object per line.
//!
//! This crate holds the verified decisions: the wire format (`messages`, over
//! the JSON pieces of `json`), the publisher's broker (`broker`) and its other
//! choices (`server`), and the subscriber's connection logic (`client`).
pub mod broker;
pub mod client;
pub mod json;
pub mod json_read;
pub mod messages;
pub mod server;
pub mod table;
