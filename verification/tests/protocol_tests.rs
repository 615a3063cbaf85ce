use kudubot_bindings::codec::decode;
use kudubot_bindings::hello::{ascii_lower_exec, hello_rust_applicable};
use kudubot_bindings::message::{Contact, Message};
use kudubot_bindings::protocol::{
    parse_mode, service_step, write_is_applicable_response, write_reply_response, Mode,
    ServiceError, StepOutput,
};

fn proto_contact(id: i64, name: &str, addr: &str) -> Contact {
    Contact {
        database_id: id,
        display_name: name.as_bytes().to_vec(),
        address: addr.as_bytes().to_vec(),
    }
}

fn proto_message(body: &str) -> Message {
    Message {
        message_title: b"Hi".to_vec(),
        message_body: body.as_bytes().to_vec(),
        receiver: proto_contact(1, "Bot", "bot@x"),
        sender: proto_contact(2, "Alice", "alice@x"),
        sender_group: None,
        timestamp: b"1000.0".to_vec(),
    }
}

#[test]
fn mode_strings() {
    assert_eq!(
        parse_mode(&b"handle_message".to_vec()),
        Ok(Mode::HandleMessage)
    );
    assert_eq!(
        parse_mode(&b"is_applicable_to".to_vec()),
        Ok(Mode::IsApplicableTo)
    );
    assert_eq!(
        parse_mode(&b"IS_APPLICABLE_TO".to_vec()),
        Err(ServiceError::UnrecognizedMode)
    );
    assert_eq!(
        parse_mode(&b"handle_message ".to_vec()),
        Err(ServiceError::UnrecognizedMode)
    );
    assert_eq!(
        parse_mode(&Vec::new()),
        Err(ServiceError::UnrecognizedMode)
    );
}

#[test]
fn response_documents() {
    let mut out = b"stale".to_vec();
    write_is_applicable_response(&mut out, true);
    assert_eq!(out, b"{\"is_applicable\":true}".to_vec());
    write_is_applicable_response(&mut out, false);
    assert_eq!(out, b"{\"is_applicable\":false}".to_vec());
    write_reply_response(&mut out);
    assert_eq!(out, b"{\"mode\":\"reply\"}".to_vec());
}

#[test]
fn applicable_step_writes_no_message() {
    let m = proto_message("hello rust!");
    let out = service_step(
        Mode::IsApplicableTo,
        &m,
        true,
        &b"Hello Rust".to_vec(),
        &b"Hi!".to_vec(),
    );
    match out {
        StepOutput::Applicable { response } => {
            assert_eq!(response, b"{\"is_applicable\":true}".to_vec());
        }
        StepOutput::Reply { .. } => panic!("applicability query must not rewrite the message"),
    }
}

#[test]
fn handle_step_outputs() {
    let m = proto_message("Hello Rust!");
    let out = service_step(
        Mode::HandleMessage,
        &m,
        false,
        &b"Hello Rust".to_vec(),
        &b"Hi!".to_vec(),
    );
    match out {
        StepOutput::Reply { message, response } => {
            assert_eq!(response, b"{\"mode\":\"reply\"}".to_vec());
            let reply = decode(&message).expect("the rewritten message file must decode");
            assert_eq!(reply.message_title, b"Hello Rust".to_vec());
            assert_eq!(reply.message_body, b"Hi!".to_vec());
            assert_eq!(reply.receiver.database_id, 2);
            assert_eq!(reply.sender.database_id, 1);
            assert!(reply.sender_group.is_none());
            assert_eq!(reply.timestamp, b"1000.0".to_vec());
        }
        StepOutput::Applicable { .. } => panic!("handling must produce a reply"),
    }
}

#[test]
fn hello_predicate() {
    assert!(hello_rust_applicable(&proto_message("hello rust!")));
    assert!(hello_rust_applicable(&proto_message("Hello Rust!")));
    assert!(hello_rust_applicable(&proto_message("HELLO RUST!")));
    assert!(!hello_rust_applicable(&proto_message("hello rust")));
    assert!(!hello_rust_applicable(&proto_message("goodbye rust!")));
    assert!(!hello_rust_applicable(&proto_message("")));
}

#[test]
fn ascii_lowercasing() {
    assert_eq!(
        ascii_lower_exec(&b"Hello RUST! [\\]^_".to_vec()),
        b"hello rust! [\\]^_".to_vec()
    );
    assert_eq!(ascii_lower_exec(&Vec::new()), Vec::<u8>::new());
    // Bytes outside the ASCII capitals pass through, including high bytes.
    assert_eq!(
        ascii_lower_exec(&vec![195, 137, 64, 91]),
        vec![195, 137, 64, 91]
    );
}

#[test]
fn end_to_end_example() {
    // The host writes this document and asks whether the service applies.
    let doc = "{\"message_title\":\"Hi\",\"message_body\":\"Hello Rust!\",\
         \"receiver\":{\"database_id\":1,\"display_name\":\"Bot\",\"address\":\"bot@x\"},\
         \"sender\":{\"database_id\":2,\"display_name\":\"Alice\",\"address\":\"alice@x\"},\
         \"sender_group\":null,\"timestamp\":1000.0}";
    let mode = parse_mode(&b"is_applicable_to".to_vec()).expect("known mode");
    let m = decode(&doc.as_bytes().to_vec()).expect("the example document decodes");
    let applicable = hello_rust_applicable(&m);
    assert!(applicable);
    let out = service_step(mode, &m, applicable, &b"Hello Rust".to_vec(), &b"Hi!".to_vec());
    match out {
        StepOutput::Applicable { response } => {
            assert_eq!(response, b"{\"is_applicable\":true}".to_vec());
        }
        StepOutput::Reply { .. } => panic!("wrong operation"),
    }
}
