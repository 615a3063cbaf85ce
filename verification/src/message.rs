//! The message data model and the reply rule.
//!
//! A `Message` carries the text of one chat message between the host and the
//! service.  String fields hold the text as bytes; the timestamp is kept as
//! the decimal token it was read from, so a reply carries it back unchanged.

use vstd::prelude::*;

use crate::num::is_json_number;
use crate::utf8::is_utf8;

verus! {

/// One addressable chat participant.
#[derive(Debug)]
pub struct Contact {
    /// Host-assigned 64-bit identifier, opaque to the service.
    pub database_id: i64,
    /// Human-readable name.
    pub display_name: Vec<u8>,
    /// Address on the underlying chat network, format network-specific.
    pub address: Vec<u8>,
}

/// Mathematical value of a `Contact`.
#[verifier::ext_equal]
pub ghost struct ContactModel {
    pub database_id: int,
    pub display_name: Seq<u8>,
    pub address: Seq<u8>,
}

impl View for Contact {
    type V = ContactModel;

    open spec fn view(&self) -> ContactModel {
        ContactModel {
            database_id: self.database_id as int,
            display_name: self.display_name@,
            address: self.address@,
        }
    }
}

/// The identifier fits in 64 bits and both strings are well-formed text.
pub open spec fn valid_contact(c: ContactModel) -> bool {
    &&& i64::MIN <= c.database_id <= i64::MAX
    &&& is_utf8(c.display_name)
    &&& is_utf8(c.address)
}

/// One chat message crossing the file boundary.
#[derive(Debug)]
pub struct Message {
    /// Short subject or label.
    pub message_title: Vec<u8>,
    /// Payload text.
    pub message_body: Vec<u8>,
    /// The recipient; for an inbound message, the identity the service acts as.
    pub receiver: Contact,
    /// The originating participant.
    pub sender: Contact,
    /// The originating group, present only for a message from a group context.
    pub sender_group: Option<Contact>,
    /// Seconds since the epoch, kept as the decimal token from the document.
    pub timestamp: Vec<u8>,
}

/// Mathematical value of a `Message`.
#[verifier::ext_equal]
pub ghost struct MessageModel {
    pub message_title: Seq<u8>,
    pub message_body: Seq<u8>,
    pub receiver: ContactModel,
    pub sender: ContactModel,
    pub sender_group: Option<ContactModel>,
    pub timestamp: Seq<u8>,
}

impl View for Message {
    type V = MessageModel;

    open spec fn view(&self) -> MessageModel {
        MessageModel {
            message_title: self.message_title@,
            message_body: self.message_body@,
            receiver: self.receiver@,
            sender: self.sender@,
            sender_group: match self.sender_group {
                Some(g) => Some(g@),
                None => None,
            },
            timestamp: self.timestamp@,
        }
    }
}

/// The contacts fit the model, the title and the body are well-formed text,
/// and the timestamp is a decimal number token.
pub open spec fn valid_message(m: MessageModel) -> bool {
    &&& is_utf8(m.message_title)
    &&& is_utf8(m.message_body)
    &&& valid_contact(m.receiver)
    &&& valid_contact(m.sender)
    &&& match m.sender_group {
        Some(g) => valid_contact(g),
        None => true,
    }
    &&& is_json_number(m.timestamp)
}

/// Byte-for-byte copy of a vector.
pub fn copy_bytes(v: &Vec<u8>) -> (r: Vec<u8>)
    ensures
        r@ == v@,
{
    let mut r: Vec<u8> = Vec::new();
    let mut k: usize = 0;
    while k < v.len()
        invariant
            k <= v.len(),
            r@ == v@.subrange(0, k as int),
        decreases v.len() - k,
    {
        r.push(v[k]);
        k = k + 1;
        proof {
            assert(v@.subrange(0, k as int) =~= v@.subrange(0, k - 1).push(v@[k - 1]));
        }
    }
    proof {
        assert(v@.subrange(0, v@.len() as int) =~= v@);
    }
    r
}

impl Contact {
    /// Whether the contact satisfies the model's validity: both strings are
    /// well-formed text (the identifier fits by construction).
    pub fn is_valid(&self) -> (b: bool)
        ensures
            b == valid_contact(self@),
    {
        crate::utf8::check_utf8(&self.display_name) && crate::utf8::check_utf8(&self.address)
    }

    /// A fresh contact with the same fields.
    pub fn duplicate(&self) -> (r: Contact)
        ensures
            r@ == self@,
    {
        Contact {
            database_id: self.database_id,
            display_name: copy_bytes(&self.display_name),
            address: copy_bytes(&self.address),
        }
    }
}

impl Message {
    /// Whether the message satisfies the model's validity: every string field
    /// is well-formed text and the timestamp is a well-formed decimal number
    /// token.
    pub fn is_valid(&self) -> (b: bool)
        ensures
            b == valid_message(self@),
    {
        crate::utf8::check_utf8(&self.message_title) && crate::utf8::check_utf8(&self.message_body)
            && self.receiver.is_valid() && self.sender.is_valid() && (match &self.sender_group {
            Some(g) => g.is_valid(),
            None => true,
        }) && crate::num::check_number(&self.timestamp)
    }
}

/// The reply to `m`: direction restored, content replaced.  The receiver is
/// the originating group if there was one, otherwise the original sender; the
/// sender is the original receiver; the reply is never group-flagged; the
/// timestamp is carried over unchanged.
pub open spec fn spec_reply(m: MessageModel, title: Seq<u8>, body: Seq<u8>) -> MessageModel {
    MessageModel {
        message_title: title,
        message_body: body,
        receiver: match m.sender_group {
            Some(g) => g,
            None => m.sender,
        },
        sender: m.receiver,
        sender_group: None,
        timestamp: m.timestamp,
    }
}

/// A reply to a valid message, with well-formed text as its content, is
/// valid.
pub proof fn lemma_reply_valid(m: MessageModel, title: Seq<u8>, body: Seq<u8>)
    requires
        valid_message(m),
        is_utf8(title),
        is_utf8(body),
    ensures
        valid_message(spec_reply(m, title, body)),
{
}

/// Builds the reply to `message` with the given title and body.
///
/// The clauses after the first restate the direction rule one field at a
/// time: a direct message is answered to its sender, a group message to its
/// group, always from the identity that received it, never group-flagged,
/// with the timestamp preserved exactly.
pub fn generate_reply(message: &Message, title: &Vec<u8>, body: &Vec<u8>) -> (r: Message)
    ensures
        r@ == spec_reply(message@, title@, body@),
        message@.sender_group is None ==> r@.receiver == message@.sender,
        message@.sender_group matches Some(g) ==> r@.receiver == g,
        r@.sender == message@.receiver,
        r@.sender_group is None,
        r@.timestamp == message@.timestamp,
        r@.message_title == title@,
        r@.message_body == body@,
{
    let receiver = match &message.sender_group {
        Some(g) => g.duplicate(),
        None => message.sender.duplicate(),
    };
    let r = Message {
        message_title: copy_bytes(title),
        message_body: copy_bytes(body),
        receiver,
        sender: message.receiver.duplicate(),
        sender_group: None,
        timestamp: copy_bytes(&message.timestamp),
    };
    proof {
        assert(r@ =~= spec_reply(message@, title@, body@));
    }
    r
}

} // verus!
