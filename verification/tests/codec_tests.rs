use kudubot_bindings::codec::{decode, encode};
use kudubot_bindings::message::{generate_reply, Contact, Message};
use kudubot_bindings::protocol::ServiceError;

fn contact(id: i64, name: &str, addr: &str) -> Contact {
    Contact {
        database_id: id,
        display_name: name.as_bytes().to_vec(),
        address: addr.as_bytes().to_vec(),
    }
}

fn sample_message(group: Option<Contact>, timestamp: &str) -> Message {
    Message {
        message_title: b"Hi".to_vec(),
        message_body: b"Hello Rust!".to_vec(),
        receiver: contact(1, "Bot", "bot@x"),
        sender: contact(2, "Alice", "alice@x"),
        sender_group: group,
        timestamp: timestamp.as_bytes().to_vec(),
    }
}

fn assert_contact_eq(a: &Contact, b: &Contact) {
    assert_eq!(a.database_id, b.database_id);
    assert_eq!(a.display_name, b.display_name);
    assert_eq!(a.address, b.address);
}

fn assert_message_eq(a: &Message, b: &Message) {
    assert_eq!(a.message_title, b.message_title);
    assert_eq!(a.message_body, b.message_body);
    assert_contact_eq(&a.receiver, &b.receiver);
    assert_contact_eq(&a.sender, &b.sender);
    match (&a.sender_group, &b.sender_group) {
        (Some(x), Some(y)) => assert_contact_eq(x, y),
        (None, None) => {}
        _ => panic!("sender_group presence differs"),
    }
    assert_eq!(a.timestamp, b.timestamp);
}

#[test]
fn encode_exact_bytes() {
    let m = sample_message(None, "1000.0");
    let expected = "{\"message_title\":\"Hi\",\"message_body\":\"Hello Rust!\",\
         \"receiver\":{\"database_id\":1,\"display_name\":\"Bot\",\"address\":\"bot@x\"},\
         \"sender\":{\"database_id\":2,\"display_name\":\"Alice\",\"address\":\"alice@x\"},\
         \"sender_group\":null,\"timestamp\":1000.0}";
    assert_eq!(encode(&m), expected.as_bytes().to_vec());
}

#[test]
fn round_trip_direct() {
    let m = sample_message(None, "1000.0");
    let back = decode(&encode(&m)).expect("canonical document must decode");
    assert_message_eq(&m, &back);
}

#[test]
fn round_trip_group() {
    let m = sample_message(Some(contact(77, "Team", "team@x")), "-0.5");
    let back = decode(&encode(&m)).expect("canonical document must decode");
    assert_message_eq(&m, &back);
}

#[test]
fn round_trip_identifier_extremes() {
    let mut m = sample_message(None, "0");
    m.receiver.database_id = i64::MIN;
    m.sender.database_id = i64::MAX;
    let back = decode(&encode(&m)).expect("canonical document must decode");
    assert_message_eq(&m, &back);
}

#[test]
fn round_trip_escaped_content() {
    let mut m = sample_message(Some(contact(3, "G\"r\\oup", "g@x")), "1e10");
    m.message_title = b"say \"hi\" \\ now".to_vec();
    m.message_body = vec![104, 105, 10, 9, 1, 0, 195, 169]; // "hi", newline, tab, controls, e-acute
    let back = decode(&encode(&m)).expect("canonical document must decode");
    assert_message_eq(&m, &back);
}

#[test]
fn escapes_exact_bytes() {
    let mut m = sample_message(None, "1");
    m.message_title = vec![34, 92, 10, 31];
    let enc = encode(&m);
    let text = String::from_utf8(enc).expect("encoding of ASCII content is ASCII");
    assert!(text.starts_with("{\"message_title\":\"\\\"\\\\\\u000a\\u001f\","));
}

#[test]
fn decode_missing_receiver_is_malformed() {
    let doc = "{\"message_title\":\"Hi\",\"message_body\":\"Hello Rust!\",\
         \"sender\":{\"database_id\":2,\"display_name\":\"Alice\",\"address\":\"alice@x\"},\
         \"sender_group\":null,\"timestamp\":1000.0}";
    let r = decode(&doc.as_bytes().to_vec());
    assert_eq!(r.unwrap_err(), ServiceError::MalformedMessage);
}

#[test]
fn decode_rejects_bad_documents() {
    let good = encode(&sample_message(None, "1000.0"));
    // Truncated document.
    let mut truncated = good.clone();
    truncated.pop();
    assert!(decode(&truncated).is_err());
    // Trailing content; trailing padding alone is tolerated.
    let mut trailing = good.clone();
    trailing.push(b'x');
    assert!(decode(&trailing).is_err());
    let mut padded = good.clone();
    padded.push(b' ');
    assert!(decode(&padded).is_ok());
    // Not a document at all.
    assert!(decode(&b"[]".to_vec()).is_err());
    assert!(decode(&Vec::new()).is_err());
    // A repeated key, an unknown key, a trailing comma, a missing colon.
    let dup = String::from_utf8(good.clone())
        .unwrap()
        .replace("\"message_title\":\"Hi\"", "\"message_title\":\"Hi\",\"message_title\":\"Hi\"");
    assert!(decode(&dup.into_bytes()).is_err());
    let unknown = String::from_utf8(good.clone())
        .unwrap()
        .replace("\"message_title\"", "\"message_label\"");
    assert!(decode(&unknown.into_bytes()).is_err());
    let trailing_comma = String::from_utf8(good.clone())
        .unwrap()
        .replace(",\"timestamp\":1000.0}", ",\"timestamp\":1000.0,}");
    assert!(decode(&trailing_comma.into_bytes()).is_err());
    let no_colon = String::from_utf8(good.clone())
        .unwrap()
        .replace("\"message_body\":", "\"message_body\" ");
    assert!(decode(&no_colon.into_bytes()).is_err());
}

#[test]
fn decode_tolerates_padding() {
    let good = encode(&sample_message(None, "1000.0"));
    // Padding around every separator, and around the document.
    let spaced = String::from_utf8(good.clone())
        .unwrap()
        .replace(":", " : ")
        .replace(",", " ,\n\t");
    let padded = format!(" \n {} \r\n", spaced.replacen("{", "{ ", 1).replace("}", " }"));
    let m = decode(&padded.into_bytes()).expect("padding between tokens is tolerated");
    assert_eq!(m.message_title, b"Hi".to_vec());
    assert_eq!(m.timestamp, b"1000.0".to_vec());
    assert_eq!(m.sender.display_name, b"Alice".to_vec());
}

#[test]
fn decode_tolerates_any_key_order() {
    let doc = "{\"timestamp\":1000.0,\"sender_group\":null,\
         \"sender\":{\"address\":\"alice@x\",\"database_id\":2,\"display_name\":\"Alice\"},\
         \"receiver\":{\"database_id\":1,\"display_name\":\"Bot\",\"address\":\"bot@x\"},\
         \"message_body\":\"Hello Rust!\",\"message_title\":\"Hi\"}";
    let m = decode(&doc.as_bytes().to_vec()).expect("keys are read in any order");
    assert_message_eq(&m, &sample_message(None, "1000.0"));
    // Each key must still appear exactly once.
    let twice = doc.replace("\"sender_group\":null,", "\"sender_group\":null,\"sender_group\":null,");
    assert!(decode(&twice.as_bytes().to_vec()).is_err());
}

#[test]
fn decode_accepts_named_escapes() {
    let doc = "{\"message_title\":\"a\\n\\t\\r\\b\\f\\/\\\\\",\"message_body\":\"B\",\
         \"receiver\":{\"database_id\":1,\"display_name\":\"Bot\",\"address\":\"b\"},\
         \"sender\":{\"database_id\":2,\"display_name\":\"A\",\"address\":\"a\"},\
         \"sender_group\":null,\"timestamp\":1}";
    let m = decode(&doc.as_bytes().to_vec()).expect("named escapes decode");
    assert_eq!(m.message_title, vec![b'a', 10, 9, 13, 8, 12, b'/', b'\\']);
}

#[test]
fn decode_accepts_wide_hex_escapes() {
    let doc = "{\"message_title\":\"\\u00e9\\u20AC\\ud83d\\ude00\",\"message_body\":\"B\",\
         \"receiver\":{\"database_id\":1,\"display_name\":\"Bot\",\"address\":\"b\"},\
         \"sender\":{\"database_id\":2,\"display_name\":\"A\",\"address\":\"a\"},\
         \"sender_group\":null,\"timestamp\":1}";
    let m = decode(&doc.as_bytes().to_vec()).expect("hex escapes and surrogate pairs decode");
    assert_eq!(
        String::from_utf8(m.message_title).unwrap(),
        "\u{e9}\u{20ac}\u{1f600}"
    );
    // A lone surrogate is rejected.
    let lone = doc.replace("\\ud83d\\ude00", "\\ud83d");
    assert!(decode(&lone.as_bytes().to_vec()).is_err());
}

#[test]
fn decode_rejects_bad_numbers() {
    let base = "{\"message_title\":\"Hi\",\"message_body\":\"B\",\
         \"receiver\":{\"database_id\":ID,\"display_name\":\"Bot\",\"address\":\"b\"},\
         \"sender\":{\"database_id\":2,\"display_name\":\"A\",\"address\":\"a\"},\
         \"sender_group\":null,\"timestamp\":TS}";
    let with = |id: &str, ts: &str| base.replace("ID", id).replace("TS", ts).into_bytes();
    assert!(decode(&with("1", "1000.0")).is_ok());
    // Identifier overflow, by one and by width.
    assert!(decode(&with("9223372036854775807", "1")).is_ok());
    assert!(decode(&with("9223372036854775808", "1")).is_err());
    assert!(decode(&with("-9223372036854775808", "1")).is_ok());
    assert!(decode(&with("-9223372036854775809", "1")).is_err());
    // Identifier with a leading zero, or none at all.
    assert!(decode(&with("01", "1")).is_err());
    assert!(decode(&with("\"1\"", "1")).is_err());
    // Timestamp that is not a number token.
    assert!(decode(&with("1", "\"soon\"")).is_err());
    assert!(decode(&with("1", "01")).is_err());
    assert!(decode(&with("1", "1.")).is_err());
    assert!(decode(&with("1", "--1")).is_err());
    // Timestamp forms the grammar does allow.
    assert!(decode(&with("1", "-0.5")).is_ok());
    assert!(decode(&with("1", "0")).is_ok());
    assert!(decode(&with("1", "6.02e23")).is_ok());
    assert!(decode(&with("1", "1E-9")).is_ok());
}

#[test]
fn decode_accepts_hex_escapes() {
    let doc = "{\"message_title\":\"\\u0041\\u000a\",\"message_body\":\"B\",\
         \"receiver\":{\"database_id\":1,\"display_name\":\"Bot\",\"address\":\"b\"},\
         \"sender\":{\"database_id\":2,\"display_name\":\"A\",\"address\":\"a\"},\
         \"sender_group\":null,\"timestamp\":1}";
    let m = decode(&doc.as_bytes().to_vec()).expect("hex escapes decode");
    assert_eq!(m.message_title, vec![65, 10]);
    // An escape above 127 yields the encoded scalar value, not a raw byte.
    let wide = doc.replace("\\u0041", "\\u00e9");
    let m2 = decode(&wide.as_bytes().to_vec()).expect("hex escapes decode");
    assert_eq!(m2.message_title, vec![0xC3, 0xA9, 10]);
}

#[test]
fn reply_direction_direct() {
    let m = sample_message(None, "1000.0");
    let r = generate_reply(&m, &b"Re".to_vec(), &b"pong".to_vec());
    assert_contact_eq(&r.receiver, &m.sender);
    assert_contact_eq(&r.sender, &m.receiver);
    assert!(r.sender_group.is_none());
    assert_eq!(r.message_title, b"Re".to_vec());
    assert_eq!(r.message_body, b"pong".to_vec());
}

#[test]
fn reply_direction_group() {
    let g = contact(9, "Group", "group@x");
    let m = sample_message(Some(contact(9, "Group", "group@x")), "1000.0");
    let r = generate_reply(&m, &b"Re".to_vec(), &b"pong".to_vec());
    assert_contact_eq(&r.receiver, &g);
    assert_contact_eq(&r.sender, &m.receiver);
    assert!(r.sender_group.is_none());
}

#[test]
fn reply_preserves_timestamp_exactly() {
    for ts in ["0", "0.0", "-123.25", "1e10", "1000.0", "-0.5"] {
        let m = sample_message(None, ts);
        let r = generate_reply(&m, &b"t".to_vec(), &b"b".to_vec());
        assert_eq!(r.timestamp, ts.as_bytes().to_vec());
    }
}

#[test]
fn decode_requires_well_formed_text() {
    let good = encode(&sample_message(None, "1"));
    // Splice a raw invalid byte into the title content.
    let pos = b"{\"message_title\":\"".len();
    let mut bad = good.clone();
    bad.insert(pos, 0xFF);
    assert!(decode(&bad).is_err());
    // An overlong two-byte form is rejected; the real two-byte form decodes.
    let mut overlong = good.clone();
    overlong.insert(pos, 0x80);
    overlong.insert(pos, 0xC0);
    assert!(decode(&overlong).is_err());
    let mut accented = good.clone();
    accented.insert(pos, 0xA9);
    accented.insert(pos, 0xC3);
    let m = decode(&accented).expect("well-formed two-byte text decodes");
    assert_eq!(&m.message_title[..2], &[0xC3, 0xA9]);
    // A lone continuation byte inside a contact string is rejected too.
    let mut in_contact = good.clone();
    let name_pos = String::from_utf8(good.clone())
        .unwrap()
        .find("Bot")
        .unwrap();
    in_contact.insert(name_pos, 0xBF);
    assert!(decode(&in_contact).is_err());
}

#[test]
fn message_validity() {
    assert!(sample_message(None, "1000.0").is_valid());
    assert!(sample_message(None, "-0.5e-3").is_valid());
    assert!(!sample_message(None, "soon").is_valid());
    assert!(!sample_message(None, "").is_valid());
    assert!(!sample_message(None, "01").is_valid());
    let mut m = sample_message(None, "1000.0");
    m.message_body = vec![0xFF];
    assert!(!m.is_valid());
    let mut m2 = sample_message(None, "1000.0");
    m2.sender.display_name = vec![0xC0, 0x80];
    assert!(!m2.is_valid());
}
