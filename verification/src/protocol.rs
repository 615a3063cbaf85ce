//! The protocol operations: mode dispatch, response documents, and the
//! single decision step of one service invocation.
//!
//! A service is invoked with a mode string and acts once: under
//! `is_applicable_to` it reports a boolean decision; under `handle_message`
//! it produces a reply document for the message file and a reply marker for
//! the response file.  Any other mode is rejected.

use vstd::prelude::*;

use crate::codec::{encode, spec_encode_message};
use crate::message::{Message, spec_reply, generate_reply};

verus! {

/// Why an invocation failed.
#[derive(PartialEq, Eq, Structural, Clone, Copy, Debug)]
pub enum ServiceError {
    /// A file was missing, unreadable or unwritable.
    IoError,
    /// The message file did not hold a well-formed message document.
    MalformedMessage,
    /// The mode argument named no known operation.
    UnrecognizedMode,
}

/// The two protocol operations.
#[derive(PartialEq, Eq, Structural, Clone, Copy, Debug)]
pub enum Mode {
    /// Read the message, reply to it, and report `reply`.
    HandleMessage,
    /// Read the message and report whether this service applies to it.
    IsApplicableTo,
}

/// The bytes of the mode string `handle_message`.
pub open spec fn spec_mode_handle() -> Seq<u8> {
    seq![104, 97, 110, 100, 108, 101, 95, 109, 101, 115, 115, 97, 103, 101u8]
}

/// The bytes of the mode string `is_applicable_to`.
pub open spec fn spec_mode_applicable() -> Seq<u8> {
    seq![105, 115, 95, 97, 112, 112, 108, 105, 99, 97, 98, 108, 101, 95, 116, 111u8]
}

/// The response document for an applicability query that holds.
/// The bytes of `{"is_applicable":true}`.
pub open spec fn spec_resp_true() -> Seq<u8> {
    seq![123, 34, 105, 115, 95, 97, 112, 112, 108, 105, 99, 97, 98, 108, 101, 34, 58, 116, 114, 117, 101, 125u8]
}

/// The response document for an applicability query that does not hold.
/// The bytes of `{"is_applicable":false}`.
pub open spec fn spec_resp_false() -> Seq<u8> {
    seq![123, 34, 105, 115, 95, 97, 112, 112, 108, 105, 99, 97, 98, 108, 101, 34, 58, 102, 97, 108, 115, 101, 125u8]
}

/// The response document for an applicability query.
pub open spec fn spec_applicable_response(value: bool) -> Seq<u8> {
    if value {
        spec_resp_true()
    } else {
        spec_resp_false()
    }
}

/// The response document after handling a message.
/// The bytes of `{"mode":"reply"}`.
pub open spec fn spec_reply_response() -> Seq<u8> {
    seq![123, 34, 109, 111, 100, 101, 34, 58, 34, 114, 101, 112, 108, 121, 34, 125u8]
}

/// Whether two byte vectors hold the same bytes.
pub fn bytes_eq(a: &Vec<u8>, b: &Vec<u8>) -> (r: bool)
    ensures
        r == (a@ == b@),
{
    if a.len() != b.len() {
        return false;
    }
    let mut k: usize = 0;
    while k < a.len()
        invariant
            k <= a.len(),
            a@.len() == b@.len(),
            forall|t: int| 0 <= t < k ==> a@[t] == b@[t],
        decreases a.len() - k,
    {
        if a[k] != b[k] {
            return false;
        }
        k = k + 1;
    }
    proof {
        assert(a@ =~= b@);
    }
    true
}

/// Reads the mode argument: the two known mode strings map to their
/// operations, and any other argument is rejected as unrecognized.
pub fn parse_mode(arg: &Vec<u8>) -> (r: Result<Mode, ServiceError>)
    ensures
        arg@ == spec_mode_handle() ==> r == Ok::<Mode, ServiceError>(Mode::HandleMessage),
        arg@ == spec_mode_applicable() ==> r == Ok::<Mode, ServiceError>(Mode::IsApplicableTo),
        arg@ != spec_mode_handle() && arg@ != spec_mode_applicable() ==> r == Err::<
            Mode,
            ServiceError,
        >(ServiceError::UnrecognizedMode),
{
    let handle: Vec<u8> = vec![104, 97, 110, 100, 108, 101, 95, 109, 101, 115, 115, 97, 103, 101u8];
    let applicable: Vec<u8> = vec![105, 115, 95, 97, 112, 112, 108, 105, 99, 97, 98, 108, 101, 95, 116, 111u8];
    proof {
        assert(handle@ =~= spec_mode_handle());
        assert(applicable@ =~= spec_mode_applicable());
    }
    if bytes_eq(arg, &handle) {
        Ok(Mode::HandleMessage)
    } else if bytes_eq(arg, &applicable) {
        Ok(Mode::IsApplicableTo)
    } else {
        Err(ServiceError::UnrecognizedMode)
    }
}

/// Writes the applicability response document into `out`, replacing its
/// content: exactly `{"is_applicable":true}` or `{"is_applicable":false}`.
pub fn write_is_applicable_response(out: &mut Vec<u8>, value: bool)
    ensures
        final(out)@ == spec_applicable_response(value),
{
    out.clear();
    if value {
        let mut doc: Vec<u8> = vec![123, 34, 105, 115, 95, 97, 112, 112, 108, 105, 99, 97, 98, 108, 101, 34, 58, 116, 114, 117, 101, 125u8];
        out.append(&mut doc);
        assert(out@ =~= spec_resp_true());
    } else {
        let mut doc: Vec<u8> = vec![123, 34, 105, 115, 95, 97, 112, 112, 108, 105, 99, 97, 98, 108, 101, 34, 58, 102, 97, 108, 115, 101, 125u8];
        out.append(&mut doc);
        assert(out@ =~= spec_resp_false());
    }
}

/// Writes the reply response document into `out`, replacing its content:
/// exactly `{"mode":"reply"}`.
pub fn write_reply_response(out: &mut Vec<u8>)
    ensures
        final(out)@ == spec_reply_response(),
{
    out.clear();
    let mut doc: Vec<u8> = vec![123, 34, 109, 111, 100, 101, 34, 58, 34, 114, 101, 112, 108, 121, 34, 125u8];
    out.append(&mut doc);
    assert(out@ =~= spec_reply_response());
}

/// What one invocation asks the embedding program to write.
pub enum StepOutput {
    /// Under `is_applicable_to`: write this response file.  The message file
    /// is left untouched; no rewrite is produced.
    Applicable { response: Vec<u8> },
    /// Under `handle_message`: overwrite the message file with `message` and
    /// write `response` to the response file.
    Reply { message: Vec<u8>, response: Vec<u8> },
}

/// The decision of one invocation, given the decoded inbound message, the
/// service's applicability verdict, and the reply content it would send.
///
/// Under `is_applicable_to` the output carries only a response document, so
/// the message file is never rewritten; under `handle_message` the message
/// file content is replaced by the canonical encoding of the reply.
pub fn service_step(
    mode: Mode,
    inbound: &Message,
    applicable: bool,
    reply_title: &Vec<u8>,
    reply_body: &Vec<u8>,
) -> (r: StepOutput)
    ensures
        mode == Mode::IsApplicableTo ==> (r matches StepOutput::Applicable { response }
            && response@ == spec_applicable_response(applicable)),
        mode == Mode::HandleMessage ==> (r matches StepOutput::Reply { message, response }
            && message@ == spec_encode_message(spec_reply(inbound@, reply_title@, reply_body@))
            && response@ == spec_reply_response()),
{
    match mode {
        Mode::IsApplicableTo => {
            let mut response: Vec<u8> = Vec::new();
            write_is_applicable_response(&mut response, applicable);
            StepOutput::Applicable { response }
        },
        Mode::HandleMessage => {
            let reply = generate_reply(inbound, reply_title, reply_body);
            let message = encode(&reply);
            let mut response: Vec<u8> = Vec::new();
            write_reply_response(&mut response);
            StepOutput::Reply { message, response }
        },
    }
}

} // verus!
