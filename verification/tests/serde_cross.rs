//! Cross-checks of the codec against a general-purpose parser: what `encode`
//! writes must be well-formed to an independent reader, with the same values.

use kudubot_bindings::codec::{decode, encode};
use kudubot_bindings::message::{Contact, Message};
use serde_json::Value;

fn cross_contact(id: i64, name: &str, addr: &str) -> Contact {
    Contact {
        database_id: id,
        display_name: name.as_bytes().to_vec(),
        address: addr.as_bytes().to_vec(),
    }
}

fn cross_message(group: Option<Contact>, timestamp: &str) -> Message {
    Message {
        message_title: b"Hi".to_vec(),
        message_body: b"Hello Rust!".to_vec(),
        receiver: cross_contact(1, "Bot", "bot@x"),
        sender: cross_contact(2, "Alice", "alice@x"),
        sender_group: group,
        timestamp: timestamp.as_bytes().to_vec(),
    }
}

#[test]
fn encoding_is_well_formed_to_an_independent_reader() {
    let m = cross_message(None, "1000.0");
    let v: Value = serde_json::from_slice(&encode(&m)).expect("encode writes well-formed text");
    assert_eq!(v["message_title"], Value::String("Hi".to_string()));
    assert_eq!(v["message_body"], Value::String("Hello Rust!".to_string()));
    assert_eq!(v["receiver"]["database_id"].as_i64(), Some(1));
    assert_eq!(v["receiver"]["display_name"].as_str(), Some("Bot"));
    assert_eq!(v["receiver"]["address"].as_str(), Some("bot@x"));
    assert_eq!(v["sender"]["database_id"].as_i64(), Some(2));
    assert!(v["sender_group"].is_null());
    assert_eq!(v["timestamp"].as_f64(), Some(1000.0));
    assert_eq!(v.as_object().map(|o| o.len()), Some(6));
}

#[test]
fn encoding_of_group_message_cross_checked() {
    let m = cross_message(Some(cross_contact(-7, "Team", "team@x")), "-0.5");
    let v: Value = serde_json::from_slice(&encode(&m)).expect("encode writes well-formed text");
    assert_eq!(v["sender_group"]["database_id"].as_i64(), Some(-7));
    assert_eq!(v["sender_group"]["display_name"].as_str(), Some("Team"));
    assert_eq!(v["timestamp"].as_f64(), Some(-0.5));
}

#[test]
fn escapes_cross_checked() {
    let mut m = cross_message(None, "0");
    m.message_title = "say \"hi\" \\ now\n\t\u{1}".as_bytes().to_vec();
    m.message_body = "caf\u{e9}".as_bytes().to_vec();
    let v: Value = serde_json::from_slice(&encode(&m)).expect("encode writes well-formed text");
    assert_eq!(
        v["message_title"].as_str(),
        Some("say \"hi\" \\ now\n\t\u{1}")
    );
    assert_eq!(v["message_body"].as_str(), Some("caf\u{e9}"));
}

#[test]
fn identifier_extremes_cross_checked() {
    let mut m = cross_message(None, "1");
    m.receiver.database_id = i64::MIN;
    m.sender.database_id = i64::MAX;
    let v: Value = serde_json::from_slice(&encode(&m)).expect("encode writes well-formed text");
    assert_eq!(v["receiver"]["database_id"].as_i64(), Some(i64::MIN));
    assert_eq!(v["sender"]["database_id"].as_i64(), Some(i64::MAX));
}

#[test]
fn independent_writer_output_decodes() {
    // Build the document with the independent library; its writer orders keys
    // alphabetically, unlike the canonical form.
    let m = cross_message(Some(cross_contact(7, "Team", "team@x")), "1000.0");
    let v: Value = serde_json::from_slice(&encode(&m)).expect("well-formed");
    let rewritten = serde_json::to_string(&v).unwrap();
    assert_ne!(rewritten.as_bytes(), &encode(&m)[..]);
    let back = decode(&rewritten.into_bytes()).expect("an independent writer's document decodes");
    assert_eq!(back.message_title, m.message_title);
    assert_eq!(back.message_body, m.message_body);
    assert_eq!(back.receiver.database_id, 1);
    assert_eq!(back.sender.address, m.sender.address);
    assert_eq!(back.sender_group.as_ref().map(|c| c.database_id), Some(7));
    assert_eq!(back.timestamp, b"1000.0".to_vec());
    let pretty = serde_json::to_string_pretty(&v).unwrap();
    let back2 = decode(&pretty.into_bytes()).expect("a pretty-printed document decodes");
    assert_eq!(back2.message_title, m.message_title);
}
