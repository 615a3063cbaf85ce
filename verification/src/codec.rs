//! The message document codec.
//!
//! A message crosses the file boundary as one structured text object with
//! the keys `message_title`, `message_body`, `receiver`, `sender`,
//! `sender_group` and `timestamp`; `sender_group` is a nested contact object
//! or an explicit `null`.  `decode` reads any well-formed document: keys in
//! any order, each exactly once, with optional padding between tokens and
//! the full string escape syntax in values; the keys themselves are matched
//! as written, since no writer escapes a plain identifier.  `encode` writes
//! the canonical form: the
//! keys in declaration order, no padding, and only the escapes the format
//! requires.  `lemma_round_trip` proves that every valid message survives
//! the trip unchanged.

use vstd::prelude::*;

use crate::message::{Contact, ContactModel, Message, MessageModel, valid_contact, valid_message};
use crate::num::{
    is_json_number,
    is_digit, is_number_byte, lemma_sp_i64_inv, lemma_sp_number_inv, parse_i64_at, parse_number_at,
    push_i64_dec, sp_i64, sp_number, spec_i64_bytes,
};
use crate::protocol::ServiceError;
use crate::text::{
    QUOTE, esc, lemma_esc_inv, parse_string_at, push_escaped, sp_str_body,
};
use crate::utf8::{check_utf8, is_utf8};

verus! {

/// ASCII `{`.
pub const LBRACE: u8 = 123;

/// ASCII `}`.
pub const RBRACE: u8 = 125;

/// ASCII `:`.
pub const COLON: u8 = 58;

/// ASCII `,`.
pub const COMMA: u8 = 44;

/// `p` occurs in `s` at position `i`.
pub open spec fn matches_at(s: Seq<u8>, i: int, p: Seq<u8>) -> bool {
    0 <= i && i + p.len() <= s.len() && s.subrange(i, i + p.len() as int) == p
}

/// A match of a concatenation is a match of each part in turn.
pub proof fn lemma_matches_split(s: Seq<u8>, i: int, a: Seq<u8>, b: Seq<u8>)
    requires
        matches_at(s, i, a + b),
    ensures
        matches_at(s, i, a),
        matches_at(s, i + a.len(), b),
{
    let w = (a + b).len() as int;
    assert forall|k: int| 0 <= k < w implies s[i + k] == #[trigger] (a + b)[k] by {
        assert(s.subrange(i, i + w)[k] == (a + b)[k]);
    }
    assert(s.subrange(i, i + a.len() as int) =~= a) by {
        assert forall|k: int| 0 <= k < a.len() implies s.subrange(i, i + a.len() as int)[k]
            == #[trigger] a[k] by {
            assert(s[i + k] == (a + b)[k]);
        }
    }
    assert(s.subrange(i + a.len(), i + w) =~= b) by {
        assert forall|k: int| 0 <= k < b.len() implies s.subrange(i + a.len(), i + w)[k]
            == #[trigger] b[k] by {
            assert(s[i + (a.len() + k)] == (a + b)[a.len() + k]);
        }
    }
}

/// Consumes `lit` at position `i`, executable.
fn expect_lit(s: &Vec<u8>, i: usize, lit: &Vec<u8>) -> (r: Option<usize>)
    requires
        i <= s.len(),
    ensures
        match r {
            Some(j) => matches_at(s@, i as int, lit@) && j as int == i + lit@.len() && j <= s.len(),
            None => !matches_at(s@, i as int, lit@),
        },
{
    if s.len() - i < lit.len() {
        return None;
    }
    let mut k: usize = 0;
    while k < lit.len()
        invariant
            k <= lit.len(),
            i + lit.len() <= s.len(),
            forall|t: int| 0 <= t < k ==> s@[i + t] == #[trigger] lit@[t],
        decreases lit.len() - k,
    {
        if s[i + k] != lit[k] {
            proof {
                if matches_at(s@, i as int, lit@) {
                    assert(s@.subrange(i as int, i + lit@.len() as int)[k as int] == lit@[k as int]);
                }
            }
            return None;
        }
        k = k + 1;
    }
    proof {
        assert(s@.subrange(i as int, i + lit@.len() as int) =~= lit@);
    }
    Some(i + lit.len())
}

/// `b` is inter-token padding: space, tab, line feed or carriage return.
pub open spec fn is_ws(b: u8) -> bool {
    b == 32 || b == 9 || b == 10 || b == 13
}

/// First position at or after `i` that does not hold padding.
pub open spec fn ws_end(s: Seq<u8>, i: int) -> int
    decreases s.len() - i,
{
    if 0 <= i && i < s.len() && is_ws(s[i]) {
        ws_end(s, i + 1)
    } else {
        i
    }
}

/// Skips padding, as `ws_end` describes.
fn skip_ws(s: &Vec<u8>, i: usize) -> (j: usize)
    requires
        i <= s.len(),
    ensures
        j as int == ws_end(s@, i as int),
        i <= j <= s.len(),
{
    let mut j: usize = i;
    while j < s.len() && (s[j] == 32 || s[j] == 9 || s[j] == 10 || s[j] == 13)
        invariant
            i <= j <= s.len(),
            ws_end(s@, i as int) == ws_end(s@, j as int),
        decreases s.len() - j,
    {
        j = j + 1;
    }
    j
}


/// The bytes of the quoted key `"message_title"`.
pub open spec fn spec_key_title() -> Seq<u8> {
    seq![34, 109, 101, 115, 115, 97, 103, 101, 95, 116, 105, 116, 108, 101, 34u8]
}

/// Same bytes, executable.
fn lit_key_title() -> (r: Vec<u8>)
    ensures
        r@ == spec_key_title(),
{
    let v: Vec<u8> = vec![34, 109, 101, 115, 115, 97, 103, 101, 95, 116, 105, 116, 108, 101, 34u8];
    proof {
        assert(v@ =~= spec_key_title());
    }
    v
}

/// The bytes of the quoted key `"message_body"`.
pub open spec fn spec_key_body() -> Seq<u8> {
    seq![34, 109, 101, 115, 115, 97, 103, 101, 95, 98, 111, 100, 121, 34u8]
}

/// Same bytes, executable.
fn lit_key_body() -> (r: Vec<u8>)
    ensures
        r@ == spec_key_body(),
{
    let v: Vec<u8> = vec![34, 109, 101, 115, 115, 97, 103, 101, 95, 98, 111, 100, 121, 34u8];
    proof {
        assert(v@ =~= spec_key_body());
    }
    v
}

/// The bytes of the quoted key `"receiver"`.
pub open spec fn spec_key_receiver() -> Seq<u8> {
    seq![34, 114, 101, 99, 101, 105, 118, 101, 114, 34u8]
}

/// Same bytes, executable.
fn lit_key_receiver() -> (r: Vec<u8>)
    ensures
        r@ == spec_key_receiver(),
{
    let v: Vec<u8> = vec![34, 114, 101, 99, 101, 105, 118, 101, 114, 34u8];
    proof {
        assert(v@ =~= spec_key_receiver());
    }
    v
}

/// The bytes of the quoted key `"sender"`.
pub open spec fn spec_key_sender() -> Seq<u8> {
    seq![34, 115, 101, 110, 100, 101, 114, 34u8]
}

/// Same bytes, executable.
fn lit_key_sender() -> (r: Vec<u8>)
    ensures
        r@ == spec_key_sender(),
{
    let v: Vec<u8> = vec![34, 115, 101, 110, 100, 101, 114, 34u8];
    proof {
        assert(v@ =~= spec_key_sender());
    }
    v
}

/// The bytes of the quoted key `"sender_group"`.
pub open spec fn spec_key_group() -> Seq<u8> {
    seq![34, 115, 101, 110, 100, 101, 114, 95, 103, 114, 111, 117, 112, 34u8]
}

/// Same bytes, executable.
fn lit_key_group() -> (r: Vec<u8>)
    ensures
        r@ == spec_key_group(),
{
    let v: Vec<u8> = vec![34, 115, 101, 110, 100, 101, 114, 95, 103, 114, 111, 117, 112, 34u8];
    proof {
        assert(v@ =~= spec_key_group());
    }
    v
}

/// The bytes of the quoted key `"timestamp"`.
pub open spec fn spec_key_timestamp() -> Seq<u8> {
    seq![34, 116, 105, 109, 101, 115, 116, 97, 109, 112, 34u8]
}

/// Same bytes, executable.
fn lit_key_timestamp() -> (r: Vec<u8>)
    ensures
        r@ == spec_key_timestamp(),
{
    let v: Vec<u8> = vec![34, 116, 105, 109, 101, 115, 116, 97, 109, 112, 34u8];
    proof {
        assert(v@ =~= spec_key_timestamp());
    }
    v
}

/// The bytes of the quoted key `"database_id"`.
pub open spec fn spec_key_id() -> Seq<u8> {
    seq![34, 100, 97, 116, 97, 98, 97, 115, 101, 95, 105, 100, 34u8]
}

/// Same bytes, executable.
fn lit_key_id() -> (r: Vec<u8>)
    ensures
        r@ == spec_key_id(),
{
    let v: Vec<u8> = vec![34, 100, 97, 116, 97, 98, 97, 115, 101, 95, 105, 100, 34u8];
    proof {
        assert(v@ =~= spec_key_id());
    }
    v
}

/// The bytes of the quoted key `"display_name"`.
pub open spec fn spec_key_name() -> Seq<u8> {
    seq![34, 100, 105, 115, 112, 108, 97, 121, 95, 110, 97, 109, 101, 34u8]
}

/// Same bytes, executable.
fn lit_key_name() -> (r: Vec<u8>)
    ensures
        r@ == spec_key_name(),
{
    let v: Vec<u8> = vec![34, 100, 105, 115, 112, 108, 97, 121, 95, 110, 97, 109, 101, 34u8];
    proof {
        assert(v@ =~= spec_key_name());
    }
    v
}

/// The bytes of the quoted key `"address"`.
pub open spec fn spec_key_addr() -> Seq<u8> {
    seq![34, 97, 100, 100, 114, 101, 115, 115, 34u8]
}

/// Same bytes, executable.
fn lit_key_addr() -> (r: Vec<u8>)
    ensures
        r@ == spec_key_addr(),
{
    let v: Vec<u8> = vec![34, 97, 100, 100, 114, 101, 115, 115, 34u8];
    proof {
        assert(v@ =~= spec_key_addr());
    }
    v
}

/// The bytes of `null`, the absent sender group.
pub open spec fn spec_lit_null() -> Seq<u8> {
    seq![110, 117, 108, 108u8]
}

/// Same bytes, executable.
fn lit_null() -> (r: Vec<u8>)
    ensures
        r@ == spec_lit_null(),
{
    let v: Vec<u8> = vec![110, 117, 108, 108u8];
    proof {
        assert(v@ =~= spec_lit_null());
    }
    v
}


/// Opens the document and announces the title, in canonical form.
pub open spec fn spec_lit_title() -> Seq<u8> {
    seq![LBRACE] + spec_key_title() + seq![COLON]
}

/// Same bytes, executable.
fn lit_title() -> (r: Vec<u8>)
    ensures
        r@ == spec_lit_title(),
{
    let v: Vec<u8> = vec![123, 34, 109, 101, 115, 115, 97, 103, 101, 95, 116, 105, 116, 108, 101, 34, 58u8];
    proof {
        assert(v@ =~= spec_lit_title());
    }
    v
}

/// A canonical `title` chunk is its three tokens.
proof fn lemma_title_tokens(s: Seq<u8>, i: int)
    requires
        matches_at(s, i, spec_lit_title()),
    ensures
        i + spec_lit_title().len() <= s.len(),
        s[i] == LBRACE,
        matches_at(s, i + 1, spec_key_title()),
        s[i + 1 + spec_key_title().len()] == COLON,
{
    lemma_matches_split(s, i, seq![LBRACE] + spec_key_title(), seq![COLON]);
    lemma_matches_split(s, i, seq![LBRACE], spec_key_title());
    assert(s[i] == s.subrange(i, i + 1)[0]);
    let c = i + 1 + spec_key_title().len() as int;
    assert(s[c] == s.subrange(c, c + 1)[0]);
}

/// Announces the body, in canonical form.
pub open spec fn spec_lit_body() -> Seq<u8> {
    seq![COMMA] + spec_key_body() + seq![COLON]
}

/// Same bytes, executable.
fn lit_body() -> (r: Vec<u8>)
    ensures
        r@ == spec_lit_body(),
{
    let v: Vec<u8> = vec![44, 34, 109, 101, 115, 115, 97, 103, 101, 95, 98, 111, 100, 121, 34, 58u8];
    proof {
        assert(v@ =~= spec_lit_body());
    }
    v
}

/// A canonical `body` chunk is its three tokens.
proof fn lemma_body_tokens(s: Seq<u8>, i: int)
    requires
        matches_at(s, i, spec_lit_body()),
    ensures
        i + spec_lit_body().len() <= s.len(),
        s[i] == COMMA,
        matches_at(s, i + 1, spec_key_body()),
        s[i + 1 + spec_key_body().len()] == COLON,
{
    lemma_matches_split(s, i, seq![COMMA] + spec_key_body(), seq![COLON]);
    lemma_matches_split(s, i, seq![COMMA], spec_key_body());
    assert(s[i] == s.subrange(i, i + 1)[0]);
    let c = i + 1 + spec_key_body().len() as int;
    assert(s[c] == s.subrange(c, c + 1)[0]);
}

/// Announces the receiver, in canonical form.
pub open spec fn spec_lit_receiver() -> Seq<u8> {
    seq![COMMA] + spec_key_receiver() + seq![COLON]
}

/// Same bytes, executable.
fn lit_receiver() -> (r: Vec<u8>)
    ensures
        r@ == spec_lit_receiver(),
{
    let v: Vec<u8> = vec![44, 34, 114, 101, 99, 101, 105, 118, 101, 114, 34, 58u8];
    proof {
        assert(v@ =~= spec_lit_receiver());
    }
    v
}

/// A canonical `receiver` chunk is its three tokens.
proof fn lemma_receiver_tokens(s: Seq<u8>, i: int)
    requires
        matches_at(s, i, spec_lit_receiver()),
    ensures
        i + spec_lit_receiver().len() <= s.len(),
        s[i] == COMMA,
        matches_at(s, i + 1, spec_key_receiver()),
        s[i + 1 + spec_key_receiver().len()] == COLON,
{
    lemma_matches_split(s, i, seq![COMMA] + spec_key_receiver(), seq![COLON]);
    lemma_matches_split(s, i, seq![COMMA], spec_key_receiver());
    assert(s[i] == s.subrange(i, i + 1)[0]);
    let c = i + 1 + spec_key_receiver().len() as int;
    assert(s[c] == s.subrange(c, c + 1)[0]);
}

/// Announces the sender, in canonical form.
pub open spec fn spec_lit_sender() -> Seq<u8> {
    seq![COMMA] + spec_key_sender() + seq![COLON]
}

/// Same bytes, executable.
fn lit_sender() -> (r: Vec<u8>)
    ensures
        r@ == spec_lit_sender(),
{
    let v: Vec<u8> = vec![44, 34, 115, 101, 110, 100, 101, 114, 34, 58u8];
    proof {
        assert(v@ =~= spec_lit_sender());
    }
    v
}

/// A canonical `sender` chunk is its three tokens.
proof fn lemma_sender_tokens(s: Seq<u8>, i: int)
    requires
        matches_at(s, i, spec_lit_sender()),
    ensures
        i + spec_lit_sender().len() <= s.len(),
        s[i] == COMMA,
        matches_at(s, i + 1, spec_key_sender()),
        s[i + 1 + spec_key_sender().len()] == COLON,
{
    lemma_matches_split(s, i, seq![COMMA] + spec_key_sender(), seq![COLON]);
    lemma_matches_split(s, i, seq![COMMA], spec_key_sender());
    assert(s[i] == s.subrange(i, i + 1)[0]);
    let c = i + 1 + spec_key_sender().len() as int;
    assert(s[c] == s.subrange(c, c + 1)[0]);
}

/// Announces the sender group, in canonical form.
pub open spec fn spec_lit_group() -> Seq<u8> {
    seq![COMMA] + spec_key_group() + seq![COLON]
}

/// Same bytes, executable.
fn lit_group() -> (r: Vec<u8>)
    ensures
        r@ == spec_lit_group(),
{
    let v: Vec<u8> = vec![44, 34, 115, 101, 110, 100, 101, 114, 95, 103, 114, 111, 117, 112, 34, 58u8];
    proof {
        assert(v@ =~= spec_lit_group());
    }
    v
}

/// A canonical `group` chunk is its three tokens.
proof fn lemma_group_tokens(s: Seq<u8>, i: int)
    requires
        matches_at(s, i, spec_lit_group()),
    ensures
        i + spec_lit_group().len() <= s.len(),
        s[i] == COMMA,
        matches_at(s, i + 1, spec_key_group()),
        s[i + 1 + spec_key_group().len()] == COLON,
{
    lemma_matches_split(s, i, seq![COMMA] + spec_key_group(), seq![COLON]);
    lemma_matches_split(s, i, seq![COMMA], spec_key_group());
    assert(s[i] == s.subrange(i, i + 1)[0]);
    let c = i + 1 + spec_key_group().len() as int;
    assert(s[c] == s.subrange(c, c + 1)[0]);
}

/// Announces the timestamp, in canonical form.
pub open spec fn spec_lit_timestamp() -> Seq<u8> {
    seq![COMMA] + spec_key_timestamp() + seq![COLON]
}

/// Same bytes, executable.
fn lit_timestamp() -> (r: Vec<u8>)
    ensures
        r@ == spec_lit_timestamp(),
{
    let v: Vec<u8> = vec![44, 34, 116, 105, 109, 101, 115, 116, 97, 109, 112, 34, 58u8];
    proof {
        assert(v@ =~= spec_lit_timestamp());
    }
    v
}

/// A canonical `timestamp` chunk is its three tokens.
proof fn lemma_timestamp_tokens(s: Seq<u8>, i: int)
    requires
        matches_at(s, i, spec_lit_timestamp()),
    ensures
        i + spec_lit_timestamp().len() <= s.len(),
        s[i] == COMMA,
        matches_at(s, i + 1, spec_key_timestamp()),
        s[i + 1 + spec_key_timestamp().len()] == COLON,
{
    lemma_matches_split(s, i, seq![COMMA] + spec_key_timestamp(), seq![COLON]);
    lemma_matches_split(s, i, seq![COMMA], spec_key_timestamp());
    assert(s[i] == s.subrange(i, i + 1)[0]);
    let c = i + 1 + spec_key_timestamp().len() as int;
    assert(s[c] == s.subrange(c, c + 1)[0]);
}

/// Opens a contact and announces its identifier, in canonical form.
pub open spec fn spec_lit_c_open() -> Seq<u8> {
    seq![LBRACE] + spec_key_id() + seq![COLON]
}

/// Same bytes, executable.
fn lit_c_open() -> (r: Vec<u8>)
    ensures
        r@ == spec_lit_c_open(),
{
    let v: Vec<u8> = vec![123, 34, 100, 97, 116, 97, 98, 97, 115, 101, 95, 105, 100, 34, 58u8];
    proof {
        assert(v@ =~= spec_lit_c_open());
    }
    v
}

/// A canonical `c_open` chunk is its three tokens.
proof fn lemma_c_open_tokens(s: Seq<u8>, i: int)
    requires
        matches_at(s, i, spec_lit_c_open()),
    ensures
        i + spec_lit_c_open().len() <= s.len(),
        s[i] == LBRACE,
        matches_at(s, i + 1, spec_key_id()),
        s[i + 1 + spec_key_id().len()] == COLON,
{
    lemma_matches_split(s, i, seq![LBRACE] + spec_key_id(), seq![COLON]);
    lemma_matches_split(s, i, seq![LBRACE], spec_key_id());
    assert(s[i] == s.subrange(i, i + 1)[0]);
    let c = i + 1 + spec_key_id().len() as int;
    assert(s[c] == s.subrange(c, c + 1)[0]);
}

/// Announces a contact's display name, in canonical form.
pub open spec fn spec_lit_c_name() -> Seq<u8> {
    seq![COMMA] + spec_key_name() + seq![COLON]
}

/// Same bytes, executable.
fn lit_c_name() -> (r: Vec<u8>)
    ensures
        r@ == spec_lit_c_name(),
{
    let v: Vec<u8> = vec![44, 34, 100, 105, 115, 112, 108, 97, 121, 95, 110, 97, 109, 101, 34, 58u8];
    proof {
        assert(v@ =~= spec_lit_c_name());
    }
    v
}

/// A canonical `c_name` chunk is its three tokens.
proof fn lemma_c_name_tokens(s: Seq<u8>, i: int)
    requires
        matches_at(s, i, spec_lit_c_name()),
    ensures
        i + spec_lit_c_name().len() <= s.len(),
        s[i] == COMMA,
        matches_at(s, i + 1, spec_key_name()),
        s[i + 1 + spec_key_name().len()] == COLON,
{
    lemma_matches_split(s, i, seq![COMMA] + spec_key_name(), seq![COLON]);
    lemma_matches_split(s, i, seq![COMMA], spec_key_name());
    assert(s[i] == s.subrange(i, i + 1)[0]);
    let c = i + 1 + spec_key_name().len() as int;
    assert(s[c] == s.subrange(c, c + 1)[0]);
}

/// Announces a contact's address, in canonical form.
pub open spec fn spec_lit_c_addr() -> Seq<u8> {
    seq![COMMA] + spec_key_addr() + seq![COLON]
}

/// Same bytes, executable.
fn lit_c_addr() -> (r: Vec<u8>)
    ensures
        r@ == spec_lit_c_addr(),
{
    let v: Vec<u8> = vec![44, 34, 97, 100, 100, 114, 101, 115, 115, 34, 58u8];
    proof {
        assert(v@ =~= spec_lit_c_addr());
    }
    v
}

/// A canonical `c_addr` chunk is its three tokens.
proof fn lemma_c_addr_tokens(s: Seq<u8>, i: int)
    requires
        matches_at(s, i, spec_lit_c_addr()),
    ensures
        i + spec_lit_c_addr().len() <= s.len(),
        s[i] == COMMA,
        matches_at(s, i + 1, spec_key_addr()),
        s[i + 1 + spec_key_addr().len()] == COLON,
{
    lemma_matches_split(s, i, seq![COMMA] + spec_key_addr(), seq![COLON]);
    lemma_matches_split(s, i, seq![COMMA], spec_key_addr());
    assert(s[i] == s.subrange(i, i + 1)[0]);
    let c = i + 1 + spec_key_addr().len() as int;
    assert(s[c] == s.subrange(c, c + 1)[0]);
}

/// Closes an object, in canonical form.
pub open spec fn spec_lit_close() -> Seq<u8> {
    seq![RBRACE]
}

/// Same bytes, executable.
fn lit_close() -> (r: Vec<u8>)
    ensures
        r@ == spec_lit_close(),
{
    let v: Vec<u8> = vec![125u8];
    proof {
        assert(v@ =~= spec_lit_close());
    }
    v
}

/// A string value as written: quoted, with the content escaped.
pub open spec fn spec_string_bytes(t: Seq<u8>) -> Seq<u8> {
    seq![QUOTE] + esc(t) + seq![QUOTE]
}

/// Parses a string value at `i`: an opening quote, then the body.
pub open spec fn sp_string(s: Seq<u8>, i: int) -> Option<(Seq<u8>, int)> {
    if 0 <= i && i < s.len() && s[i] == QUOTE {
        sp_str_body(s, i + 1)
    } else {
        None
    }
}

/// A canonically written string value parses back to its content.
proof fn lemma_string_inv(s: Seq<u8>, i: int, t: Seq<u8>)
    requires
        matches_at(s, i, spec_string_bytes(t)),
    ensures
        sp_string(s, i) == Some((t, i + spec_string_bytes(t).len() as int)),
{
    lemma_matches_split(s, i, seq![QUOTE] + esc(t), seq![QUOTE]);
    lemma_matches_split(s, i, seq![QUOTE], esc(t));
    assert(s[i] == s.subrange(i, i + 1)[0]);
    let q = i + 1 + esc(t).len() as int;
    assert(s[q] == s.subrange(q, q + 1)[0]);
    lemma_esc_inv(s, i + 1, t);
}

// ---------------------------------------------------------------------------
// Encoding.
// ---------------------------------------------------------------------------

/// Canonical bytes of one contact.
pub open spec fn spec_encode_contact(c: ContactModel) -> Seq<u8> {
    spec_lit_c_open() + spec_i64_bytes(c.database_id) + spec_lit_c_name() + spec_string_bytes(
        c.display_name,
    ) + spec_lit_c_addr() + spec_string_bytes(c.address) + spec_lit_close()
}

/// Canonical bytes of the sender group: a contact, or `null`.
pub open spec fn spec_encode_group(g: Option<ContactModel>) -> Seq<u8> {
    match g {
        Some(c) => spec_encode_contact(c),
        None => spec_lit_null(),
    }
}

/// Canonical bytes of one message document.
pub open spec fn spec_encode_message(m: MessageModel) -> Seq<u8> {
    spec_lit_title() + spec_string_bytes(m.message_title) + spec_lit_body() + spec_string_bytes(
        m.message_body,
    ) + spec_lit_receiver() + spec_encode_contact(m.receiver) + spec_lit_sender()
        + spec_encode_contact(m.sender) + spec_lit_group() + spec_encode_group(m.sender_group)
        + spec_lit_timestamp() + m.timestamp + spec_lit_close()
}

/// Appends a chunk.
fn push_all(out: &mut Vec<u8>, chunk: Vec<u8>)
    ensures
        final(out)@ == old(out)@ + chunk@,
{
    let mut c = chunk;
    out.append(&mut c);
}

/// Appends a quoted, escaped string value.
fn push_string(out: &mut Vec<u8>, t: &Vec<u8>)
    ensures
        final(out)@ == old(out)@ + spec_string_bytes(t@),
{
    out.push(QUOTE);
    push_escaped(out, t);
    out.push(QUOTE);
    assert(out@ =~= old(out)@ + spec_string_bytes(t@));
}

/// Appends the canonical bytes of `c`.
fn push_contact(out: &mut Vec<u8>, c: &Contact)
    ensures
        final(out)@ == old(out)@ + spec_encode_contact(c@),
{
    push_all(out, lit_c_open());
    push_i64_dec(out, c.database_id);
    push_all(out, lit_c_name());
    push_string(out, &c.display_name);
    push_all(out, lit_c_addr());
    push_string(out, &c.address);
    push_all(out, lit_close());
    assert(out@ =~= old(out)@ + spec_encode_contact(c@));
}

/// Encodes `m` as its canonical document, exactly `spec_encode_message`.
pub fn encode(m: &Message) -> (r: Vec<u8>)
    ensures
        r@ == spec_encode_message(m@),
{
    let mut out: Vec<u8> = Vec::new();
    push_all(&mut out, lit_title());
    push_string(&mut out, &m.message_title);
    push_all(&mut out, lit_body());
    push_string(&mut out, &m.message_body);
    push_all(&mut out, lit_receiver());
    push_contact(&mut out, &m.receiver);
    push_all(&mut out, lit_sender());
    push_contact(&mut out, &m.sender);
    push_all(&mut out, lit_group());
    match &m.sender_group {
        Some(g) => push_contact(&mut out, g),
        None => push_all(&mut out, lit_null()),
    }
    push_all(&mut out, lit_timestamp());
    let ts = crate::message::copy_bytes(&m.timestamp);
    push_all(&mut out, ts);
    push_all(&mut out, lit_close());
    assert(out@ =~= spec_encode_message(m@));
    out
}

// ---------------------------------------------------------------------------
// Parsing.
// ---------------------------------------------------------------------------

/// Contact fields gathered so far, in any key order.
#[verifier::ext_equal]
pub ghost struct ContactFields {
    pub database_id: Option<int>,
    pub display_name: Option<Seq<u8>>,
    pub address: Option<Seq<u8>>,
}

/// How many contact fields are still missing.
pub open spec fn contact_missing(f: ContactFields) -> int {
    (if f.database_id is None { 1int } else { 0 }) + (if f.display_name is None { 1int } else { 0 })
        + (if f.address is None { 1int } else { 0 })
}

/// Message fields gathered so far, in any key order.
#[verifier::ext_equal]
pub ghost struct MsgFields {
    pub message_title: Option<Seq<u8>>,
    pub message_body: Option<Seq<u8>>,
    pub receiver: Option<ContactModel>,
    pub sender: Option<ContactModel>,
    pub sender_group: Option<Option<ContactModel>>,
    pub timestamp: Option<Seq<u8>>,
}

/// How many message fields are still missing.
pub open spec fn msg_missing(f: MsgFields) -> int {
    (if f.message_title is None { 1int } else { 0 }) + (if f.message_body is None { 1int } else { 0 })
        + (if f.receiver is None { 1int } else { 0 }) + (if f.sender is None { 1int } else { 0 })
        + (if f.sender_group is None { 1int } else { 0 }) + (if f.timestamp is None { 1int } else { 0 })
}

/// Reads fields from position `i` (inside the object, at a key) until the
/// closing brace: each known key at most once, any order, padding allowed
/// around the separators.  Returns the gathered fields and the position
/// after the brace.
#[verifier::opaque]
pub open spec fn sp_contact_fields(s: Seq<u8>, i: int, f: ContactFields) -> Option<(ContactFields, int)>
    decreases contact_missing(f),
{
    if matches_at(s, i, spec_key_id()) {
        if f.database_id is Some {
            None
        } else {
            let c = ws_end(s, i + spec_key_id().len());
            if c < s.len() && s[c] == COLON {
                let v0 = ws_end(s, c + 1);
                match sp_i64(s, v0) {
                    None => None,
                    Some((val, jv)) => {
                        let f2 = ContactFields { database_id: Some(val), ..f };
                        let j2 = ws_end(s, jv);
                        if j2 < s.len() && s[j2] == COMMA {
                            sp_contact_fields(s, ws_end(s, j2 + 1), f2)
                        } else if j2 < s.len() && s[j2] == RBRACE {
                            Some((f2, j2 + 1))
                        } else {
                            None
                        }
                    },
                }
            } else {
                None
            }
        }
    } else if matches_at(s, i, spec_key_name()) {
        if f.display_name is Some {
            None
        } else {
            let c = ws_end(s, i + spec_key_name().len());
            if c < s.len() && s[c] == COLON {
                let v0 = ws_end(s, c + 1);
                match sp_string(s, v0) {
                    None => None,
                    Some((val, jv)) => if !is_utf8(val) {
                        None
                    } else {
                        let f2 = ContactFields { display_name: Some(val), ..f };
                        let j2 = ws_end(s, jv);
                        if j2 < s.len() && s[j2] == COMMA {
                            sp_contact_fields(s, ws_end(s, j2 + 1), f2)
                        } else if j2 < s.len() && s[j2] == RBRACE {
                            Some((f2, j2 + 1))
                        } else {
                            None
                        }
                    },
                }
            } else {
                None
            }
        }
    } else if matches_at(s, i, spec_key_addr()) {
        if f.address is Some {
            None
        } else {
            let c = ws_end(s, i + spec_key_addr().len());
            if c < s.len() && s[c] == COLON {
                let v0 = ws_end(s, c + 1);
                match sp_string(s, v0) {
                    None => None,
                    Some((val, jv)) => if !is_utf8(val) {
                        None
                    } else {
                        let f2 = ContactFields { address: Some(val), ..f };
                        let j2 = ws_end(s, jv);
                        if j2 < s.len() && s[j2] == COMMA {
                            sp_contact_fields(s, ws_end(s, j2 + 1), f2)
                        } else if j2 < s.len() && s[j2] == RBRACE {
                            Some((f2, j2 + 1))
                        } else {
                            None
                        }
                    },
                }
            } else {
                None
            }
        }
    } else {
        None
    }
}

/// Parses one contact object at position `i`: a brace, its three fields in
/// any order, each exactly once, and the closing brace.
pub open spec fn sp_contact(s: Seq<u8>, i: int) -> Option<(ContactModel, int)> {
    if 0 <= i && i < s.len() && s[i] == LBRACE {
        let f0 = ContactFields { database_id: None, display_name: None, address: None };
        match sp_contact_fields(s, ws_end(s, i + 1), f0) {
            None => None,
            Some((f, j)) => match (f.database_id, f.display_name, f.address) {
                (Some(id), Some(name), Some(addr)) => Some(
                    (ContactModel { database_id: id, display_name: name, address: addr }, j),
                ),
                _ => None,
            },
        }
    } else {
        None
    }
}

/// Parses the sender group at position `i`: `null`, or a contact object.
pub open spec fn sp_group(s: Seq<u8>, i: int) -> Option<(Option<ContactModel>, int)> {
    if matches_at(s, i, spec_lit_null()) {
        Some((None, i + spec_lit_null().len() as int))
    } else {
        match sp_contact(s, i) {
            Some((c, j)) => Some((Some(c), j)),
            None => None,
        }
    }
}

/// Reads fields from position `i` (inside the object, at a key) until the
/// closing brace: each known key at most once, any order, padding allowed
/// around the separators.  Returns the gathered fields and the position
/// after the brace.
#[verifier::opaque]
pub open spec fn sp_msg_fields(s: Seq<u8>, i: int, f: MsgFields) -> Option<(MsgFields, int)>
    decreases msg_missing(f),
{
    if matches_at(s, i, spec_key_title()) {
        if f.message_title is Some {
            None
        } else {
            let c = ws_end(s, i + spec_key_title().len());
            if c < s.len() && s[c] == COLON {
                let v0 = ws_end(s, c + 1);
                match sp_string(s, v0) {
                    None => None,
                    Some((val, jv)) => if !is_utf8(val) {
                        None
                    } else {
                        let f2 = MsgFields { message_title: Some(val), ..f };
                        let j2 = ws_end(s, jv);
                        if j2 < s.len() && s[j2] == COMMA {
                            sp_msg_fields(s, ws_end(s, j2 + 1), f2)
                        } else if j2 < s.len() && s[j2] == RBRACE {
                            Some((f2, j2 + 1))
                        } else {
                            None
                        }
                    },
                }
            } else {
                None
            }
        }
    } else if matches_at(s, i, spec_key_body()) {
        if f.message_body is Some {
            None
        } else {
            let c = ws_end(s, i + spec_key_body().len());
            if c < s.len() && s[c] == COLON {
                let v0 = ws_end(s, c + 1);
                match sp_string(s, v0) {
                    None => None,
                    Some((val, jv)) => if !is_utf8(val) {
                        None
                    } else {
                        let f2 = MsgFields { message_body: Some(val), ..f };
                        let j2 = ws_end(s, jv);
                        if j2 < s.len() && s[j2] == COMMA {
                            sp_msg_fields(s, ws_end(s, j2 + 1), f2)
                        } else if j2 < s.len() && s[j2] == RBRACE {
                            Some((f2, j2 + 1))
                        } else {
                            None
                        }
                    },
                }
            } else {
                None
            }
        }
    } else if matches_at(s, i, spec_key_receiver()) {
        if f.receiver is Some {
            None
        } else {
            let c = ws_end(s, i + spec_key_receiver().len());
            if c < s.len() && s[c] == COLON {
                let v0 = ws_end(s, c + 1);
                match sp_contact(s, v0) {
                    None => None,
                    Some((val, jv)) => {
                        let f2 = MsgFields { receiver: Some(val), ..f };
                        let j2 = ws_end(s, jv);
                        if j2 < s.len() && s[j2] == COMMA {
                            sp_msg_fields(s, ws_end(s, j2 + 1), f2)
                        } else if j2 < s.len() && s[j2] == RBRACE {
                            Some((f2, j2 + 1))
                        } else {
                            None
                        }
                    },
                }
            } else {
                None
            }
        }
    } else if matches_at(s, i, spec_key_sender()) {
        if f.sender is Some {
            None
        } else {
            let c = ws_end(s, i + spec_key_sender().len());
            if c < s.len() && s[c] == COLON {
                let v0 = ws_end(s, c + 1);
                match sp_contact(s, v0) {
                    None => None,
                    Some((val, jv)) => {
                        let f2 = MsgFields { sender: Some(val), ..f };
                        let j2 = ws_end(s, jv);
                        if j2 < s.len() && s[j2] == COMMA {
                            sp_msg_fields(s, ws_end(s, j2 + 1), f2)
                        } else if j2 < s.len() && s[j2] == RBRACE {
                            Some((f2, j2 + 1))
                        } else {
                            None
                        }
                    },
                }
            } else {
                None
            }
        }
    } else if matches_at(s, i, spec_key_group()) {
        if f.sender_group is Some {
            None
        } else {
            let c = ws_end(s, i + spec_key_group().len());
            if c < s.len() && s[c] == COLON {
                let v0 = ws_end(s, c + 1);
                match sp_group(s, v0) {
                    None => None,
                    Some((val, jv)) => {
                        let f2 = MsgFields { sender_group: Some(val), ..f };
                        let j2 = ws_end(s, jv);
                        if j2 < s.len() && s[j2] == COMMA {
                            sp_msg_fields(s, ws_end(s, j2 + 1), f2)
                        } else if j2 < s.len() && s[j2] == RBRACE {
                            Some((f2, j2 + 1))
                        } else {
                            None
                        }
                    },
                }
            } else {
                None
            }
        }
    } else if matches_at(s, i, spec_key_timestamp()) {
        if f.timestamp is Some {
            None
        } else {
            let c = ws_end(s, i + spec_key_timestamp().len());
            if c < s.len() && s[c] == COLON {
                let v0 = ws_end(s, c + 1);
                match sp_number(s, v0) {
                    None => None,
                    Some((val, jv)) => {
                        let f2 = MsgFields { timestamp: Some(val), ..f };
                        let j2 = ws_end(s, jv);
                        if j2 < s.len() && s[j2] == COMMA {
                            sp_msg_fields(s, ws_end(s, j2 + 1), f2)
                        } else if j2 < s.len() && s[j2] == RBRACE {
                            Some((f2, j2 + 1))
                        } else {
                            None
                        }
                    },
                }
            } else {
                None
            }
        }
    } else {
        None
    }
}

/// Parses one whole message document: optional padding, a brace, the six
/// fields in any order, each exactly once, the closing brace, and padding up
/// to the end of the input.
pub open spec fn sp_message(s: Seq<u8>) -> Option<MessageModel> {
    let i0 = ws_end(s, 0);
    if i0 < s.len() && s[i0] == LBRACE {
        let f0 = MsgFields {
            message_title: None,
            message_body: None,
            receiver: None,
            sender: None,
            sender_group: None,
            timestamp: None,
        };
        match sp_msg_fields(s, ws_end(s, i0 + 1), f0) {
            None => None,
            Some((f, j)) => if ws_end(s, j) == s.len() {
                match (f.message_title, f.message_body, f.receiver, f.sender, f.sender_group, f.timestamp) {
                    (Some(t), Some(b), Some(rc), Some(sd), Some(g), Some(ts)) => Some(
                        MessageModel {
                            message_title: t,
                            message_body: b,
                            receiver: rc,
                            sender: sd,
                            sender_group: g,
                            timestamp: ts,
                        },
                    ),
                    _ => None,
                }
            } else {
                None
            },
        }
    } else {
        None
    }
}

/// The fields a running executable parse has gathered, as a `ContactFields`.
pub open spec fn cf(id: Option<i64>, name: Option<Vec<u8>>, addr: Option<Vec<u8>>) -> ContactFields {
    ContactFields {
        database_id: match id {
            Some(v) => Some(v as int),
            None => None,
        },
        display_name: match name {
            Some(v) => Some(v@),
            None => None,
        },
        address: match addr {
            Some(v) => Some(v@),
            None => None,
        },
    }
}

/// The fields a running executable parse has gathered, as a `MsgFields`.
pub open spec fn mf(
    title: Option<Vec<u8>>,
    body: Option<Vec<u8>>,
    receiver: Option<Contact>,
    sender: Option<Contact>,
    group: Option<Option<Contact>>,
    timestamp: Option<Vec<u8>>,
) -> MsgFields {
    MsgFields {
        message_title: match title {
            Some(v) => Some(v@),
            None => None,
        },
        message_body: match body {
            Some(v) => Some(v@),
            None => None,
        },
        receiver: match receiver {
            Some(c) => Some(c@),
            None => None,
        },
        sender: match sender {
            Some(c) => Some(c@),
            None => None,
        },
        sender_group: match group {
            Some(Some(c)) => Some(Some(c@)),
            Some(None) => Some(None),
            None => None,
        },
        timestamp: match timestamp {
            Some(v) => Some(v@),
            None => None,
        },
    }
}

/// Byte-for-byte copy of `s[from..to]`.
fn copy_range(s: &Vec<u8>, from: usize, to: usize) -> (r: Vec<u8>)
    requires
        from <= to && to <= s.len(),
    ensures
        r@ == s@.subrange(from as int, to as int),
{
    let mut r: Vec<u8> = Vec::new();
    let mut k: usize = from;
    assert(r@ =~= s@.subrange(from as int, from as int));
    while k < to
        invariant
            from <= k <= to && to <= s.len(),
            r@ == s@.subrange(from as int, k as int),
        decreases to - k,
    {
        r.push(s[k]);
        k = k + 1;
        proof {
            assert(s@.subrange(from as int, k as int) =~= s@.subrange(
                from as int,
                k - 1,
            ).push(s@[k - 1]));
        }
    }
    r
}

/// Reads contact fields, as `sp_contact_fields` describes.
#[verifier::rlimit(60)]
fn parse_contact_fields(
    s: &Vec<u8>,
    i: usize,
    id: Option<i64>,
    name: Option<Vec<u8>>,
    addr: Option<Vec<u8>>,
) -> (r: Option<(Option<i64>, Option<Vec<u8>>, Option<Vec<u8>>, usize)>)
    requires
        i <= s.len(),
    ensures
        match r {
            Some(p) => sp_contact_fields(s@, i as int, cf(id, name, addr)) == Some(
                (cf(p.0, p.1, p.2), p.3 as int),
            ) && p.3 <= s.len(),
            None => sp_contact_fields(s@, i as int, cf(id, name, addr)) is None,
        },
    decreases contact_missing(cf(id, name, addr)),
{
    proof {
        reveal(sp_contact_fields);
    }
    match expect_lit(s, i, &lit_key_id()) {
        Some(k) => {
            if id.is_some() {
                return None;
            }
            let c = skip_ws(s, k);
            if c >= s.len() || s[c] != COLON {
                return None;
            }
            let v0 = skip_ws(s, c + 1);
            let (val, jv) = match parse_i64_at(s, v0) {
                Some(p) => p,
                None => return None,
            };
            let j2 = skip_ws(s, jv);
            if j2 < s.len() && s[j2] == COMMA {
                let nx = skip_ws(s, j2 + 1);
                return parse_contact_fields(s, nx, Some(val), name, addr);
            } else if j2 < s.len() && s[j2] == RBRACE {
                return Some((Some(val), name, addr, j2 + 1));
            } else {
                return None;
            }
        },
        None => {},
    }
    match expect_lit(s, i, &lit_key_name()) {
        Some(k) => {
            if name.is_some() {
                return None;
            }
            let c = skip_ws(s, k);
            if c >= s.len() || s[c] != COLON {
                return None;
            }
            let v0 = skip_ws(s, c + 1);
            if v0 >= s.len() || s[v0] != QUOTE {
                return None;
            }
            let (val, jv) = match parse_string_at(s, v0 + 1) {
                Some(p) => p,
                None => return None,
            };
            if !check_utf8(&val) {
                return None;
            }
            let j2 = skip_ws(s, jv);
            if j2 < s.len() && s[j2] == COMMA {
                let nx = skip_ws(s, j2 + 1);
                return parse_contact_fields(s, nx, id, Some(val), addr);
            } else if j2 < s.len() && s[j2] == RBRACE {
                return Some((id, Some(val), addr, j2 + 1));
            } else {
                return None;
            }
        },
        None => {},
    }
    match expect_lit(s, i, &lit_key_addr()) {
        Some(k) => {
            if addr.is_some() {
                return None;
            }
            let c = skip_ws(s, k);
            if c >= s.len() || s[c] != COLON {
                return None;
            }
            let v0 = skip_ws(s, c + 1);
            if v0 >= s.len() || s[v0] != QUOTE {
                return None;
            }
            let (val, jv) = match parse_string_at(s, v0 + 1) {
                Some(p) => p,
                None => return None,
            };
            if !check_utf8(&val) {
                return None;
            }
            let j2 = skip_ws(s, jv);
            if j2 < s.len() && s[j2] == COMMA {
                let nx = skip_ws(s, j2 + 1);
                return parse_contact_fields(s, nx, id, name, Some(val));
            } else if j2 < s.len() && s[j2] == RBRACE {
                return Some((id, name, Some(val), j2 + 1));
            } else {
                return None;
            }
        },
        None => {},
    }
    None
}

/// Parses one contact object, as `sp_contact` describes.
fn parse_contact_at(s: &Vec<u8>, i: usize) -> (r: Option<(Contact, usize)>)
    requires
        i <= s.len(),
    ensures
        match r {
            Some(p) => sp_contact(s@, i as int) == Some((p.0@, p.1 as int)) && p.1 <= s.len(),
            None => sp_contact(s@, i as int) is None,
        },
{
    if i >= s.len() || s[i] != LBRACE {
        return None;
    }
    let e = skip_ws(s, i + 1);
    match parse_contact_fields(s, e, None, None, None) {
        None => None,
        Some((id, name, addr, end)) => match (id, name, addr) {
            (Some(id), Some(name), Some(addr)) => {
                let c = Contact { database_id: id, display_name: name, address: addr };
                proof {
                    assert(sp_contact(s@, i as int) matches Some(p) && p.0 =~= c@ && p.1
                        == end as int);
                }
                Some((c, end))
            },
            _ => None,
        },
    }
}

/// Parses the sender group, as `sp_group` describes.
fn parse_group_at(s: &Vec<u8>, i: usize) -> (r: Option<(Option<Contact>, usize)>)
    requires
        i <= s.len(),
    ensures
        match r {
            Some(p) => sp_group(s@, i as int) == Some(
                (
                    match p.0 {
                        Some(c) => Some(c@),
                        None => None,
                    },
                    p.1 as int,
                ),
            ) && p.1 <= s.len(),
            None => sp_group(s@, i as int) is None,
        },
{
    match expect_lit(s, i, &lit_null()) {
        Some(j) => Some((None, j)),
        None => match parse_contact_at(s, i) {
            Some((c, j)) => Some((Some(c), j)),
            None => None,
        },
    }
}

/// Reads message fields, as `sp_msg_fields` describes.
#[verifier::rlimit(100)]
fn parse_msg_fields(
    s: &Vec<u8>,
    i: usize,
    title: Option<Vec<u8>>,
    body: Option<Vec<u8>>,
    receiver: Option<Contact>,
    sender: Option<Contact>,
    group: Option<Option<Contact>>,
    timestamp: Option<Vec<u8>>,
) -> (r: Option<
    (
        Option<Vec<u8>>,
        Option<Vec<u8>>,
        Option<Contact>,
        Option<Contact>,
        Option<Option<Contact>>,
        Option<Vec<u8>>,
        usize,
    ),
>)
    requires
        i <= s.len(),
    ensures
        match r {
            Some(p) => sp_msg_fields(s@, i as int, mf(title, body, receiver, sender, group, timestamp))
                == Some((mf(p.0, p.1, p.2, p.3, p.4, p.5), p.6 as int)) && p.6 <= s.len(),
            None => sp_msg_fields(s@, i as int, mf(title, body, receiver, sender, group, timestamp))
                is None,
        },
    decreases msg_missing(mf(title, body, receiver, sender, group, timestamp)),
{
    proof {
        reveal(sp_msg_fields);
    }
    match expect_lit(s, i, &lit_key_title()) {
        Some(k) => {
            if title.is_some() {
                return None;
            }
            let c = skip_ws(s, k);
            if c >= s.len() || s[c] != COLON {
                return None;
            }
            let v0 = skip_ws(s, c + 1);
            if v0 >= s.len() || s[v0] != QUOTE {
                return None;
            }
            let (val, jv) = match parse_string_at(s, v0 + 1) {
                Some(p) => p,
                None => return None,
            };
            if !check_utf8(&val) {
                return None;
            }
            let j2 = skip_ws(s, jv);
            if j2 < s.len() && s[j2] == COMMA {
                let nx = skip_ws(s, j2 + 1);
                return parse_msg_fields(s, nx, Some(val), body, receiver, sender, group, timestamp);
            } else if j2 < s.len() && s[j2] == RBRACE {
                return Some((Some(val), body, receiver, sender, group, timestamp, j2 + 1));
            } else {
                return None;
            }
        },
        None => {},
    }
    match expect_lit(s, i, &lit_key_body()) {
        Some(k) => {
            if body.is_some() {
                return None;
            }
            let c = skip_ws(s, k);
            if c >= s.len() || s[c] != COLON {
                return None;
            }
            let v0 = skip_ws(s, c + 1);
            if v0 >= s.len() || s[v0] != QUOTE {
                return None;
            }
            let (val, jv) = match parse_string_at(s, v0 + 1) {
                Some(p) => p,
                None => return None,
            };
            if !check_utf8(&val) {
                return None;
            }
            let j2 = skip_ws(s, jv);
            if j2 < s.len() && s[j2] == COMMA {
                let nx = skip_ws(s, j2 + 1);
                return parse_msg_fields(s, nx, title, Some(val), receiver, sender, group, timestamp);
            } else if j2 < s.len() && s[j2] == RBRACE {
                return Some((title, Some(val), receiver, sender, group, timestamp, j2 + 1));
            } else {
                return None;
            }
        },
        None => {},
    }
    match expect_lit(s, i, &lit_key_receiver()) {
        Some(k) => {
            if receiver.is_some() {
                return None;
            }
            let c = skip_ws(s, k);
            if c >= s.len() || s[c] != COLON {
                return None;
            }
            let v0 = skip_ws(s, c + 1);
            let (val, jv) = match parse_contact_at(s, v0) {
                Some(p) => p,
                None => return None,
            };
            let j2 = skip_ws(s, jv);
            if j2 < s.len() && s[j2] == COMMA {
                let nx = skip_ws(s, j2 + 1);
                return parse_msg_fields(s, nx, title, body, Some(val), sender, group, timestamp);
            } else if j2 < s.len() && s[j2] == RBRACE {
                return Some((title, body, Some(val), sender, group, timestamp, j2 + 1));
            } else {
                return None;
            }
        },
        None => {},
    }
    match expect_lit(s, i, &lit_key_sender()) {
        Some(k) => {
            if sender.is_some() {
                return None;
            }
            let c = skip_ws(s, k);
            if c >= s.len() || s[c] != COLON {
                return None;
            }
            let v0 = skip_ws(s, c + 1);
            let (val, jv) = match parse_contact_at(s, v0) {
                Some(p) => p,
                None => return None,
            };
            let j2 = skip_ws(s, jv);
            if j2 < s.len() && s[j2] == COMMA {
                let nx = skip_ws(s, j2 + 1);
                return parse_msg_fields(s, nx, title, body, receiver, Some(val), group, timestamp);
            } else if j2 < s.len() && s[j2] == RBRACE {
                return Some((title, body, receiver, Some(val), group, timestamp, j2 + 1));
            } else {
                return None;
            }
        },
        None => {},
    }
    match expect_lit(s, i, &lit_key_group()) {
        Some(k) => {
            if group.is_some() {
                return None;
            }
            let c = skip_ws(s, k);
            if c >= s.len() || s[c] != COLON {
                return None;
            }
            let v0 = skip_ws(s, c + 1);
            let (val, jv) = match parse_group_at(s, v0) {
                Some(p) => p,
                None => return None,
            };
            let j2 = skip_ws(s, jv);
            if j2 < s.len() && s[j2] == COMMA {
                let nx = skip_ws(s, j2 + 1);
                return parse_msg_fields(s, nx, title, body, receiver, sender, Some(val), timestamp);
            } else if j2 < s.len() && s[j2] == RBRACE {
                return Some((title, body, receiver, sender, Some(val), timestamp, j2 + 1));
            } else {
                return None;
            }
        },
        None => {},
    }
    match expect_lit(s, i, &lit_key_timestamp()) {
        Some(k) => {
            if timestamp.is_some() {
                return None;
            }
            let c = skip_ws(s, k);
            if c >= s.len() || s[c] != COLON {
                return None;
            }
            let v0 = skip_ws(s, c + 1);
            let jv = match parse_number_at(s, v0) {
                Some(j) => j,
                None => return None,
            };
            let val = copy_range(s, v0, jv);
            let j2 = skip_ws(s, jv);
            if j2 < s.len() && s[j2] == COMMA {
                let nx = skip_ws(s, j2 + 1);
                return parse_msg_fields(s, nx, title, body, receiver, sender, group, Some(val));
            } else if j2 < s.len() && s[j2] == RBRACE {
                return Some((title, body, receiver, sender, group, Some(val), j2 + 1));
            } else {
                return None;
            }
        },
        None => {},
    }
    None
}

/// Decodes one message document, exactly as `sp_message` describes: the
/// result is `Ok` if and only if the whole of `s` is one well-formed message
/// document, and then carries its fields; otherwise the document is rejected
/// as malformed.
pub fn decode(s: &Vec<u8>) -> (r: Result<Message, ServiceError>)
    ensures
        match r {
            Ok(m) => sp_message(s@) == Some(m@),
            Err(e) => sp_message(s@) is None && e == ServiceError::MalformedMessage,
        },
{
    let err = ServiceError::MalformedMessage;
    let i0 = skip_ws(s, 0);
    if i0 >= s.len() || s[i0] != LBRACE {
        return Err(err);
    }
    let e1 = skip_ws(s, i0 + 1);
    let fields = match parse_msg_fields(s, e1, None, None, None, None, None, None) {
        Some(f) => f,
        None => return Err(err),
    };
    let (title, body, receiver, sender, group, timestamp, end) = fields;
    let tail = skip_ws(s, end);
    if tail != s.len() {
        return Err(err);
    }
    match (title, body, receiver, sender, group, timestamp) {
        (Some(t), Some(b), Some(rc), Some(sd), Some(g), Some(ts)) => {
            let m = Message {
                message_title: t,
                message_body: b,
                receiver: rc,
                sender: sd,
                sender_group: g,
                timestamp: ts,
            };
            proof {
                assert(sp_message(s@) matches Some(mm) && mm =~= m@);
            }
            Ok(m)
        },
        _ => Err(err),
    }
}

// ---------------------------------------------------------------------------
// The round trip.
// ---------------------------------------------------------------------------

/// Where the `display_name` key stands, the `database_id` key does not.
proof fn lemma_key_name_not_id(s: Seq<u8>, p: int)
    requires
        matches_at(s, p, spec_key_name()),
    ensures
        !matches_at(s, p, spec_key_id()),
{
    if matches_at(s, p, spec_key_id()) {
        assert(s.subrange(p, p + spec_key_name().len() as int)[2] == spec_key_name()[2]);
        assert(s.subrange(p, p + spec_key_id().len() as int)[2] == spec_key_id()[2]);
    }
}

/// Where the `address` key stands, the `database_id` key does not.
proof fn lemma_key_addr_not_id(s: Seq<u8>, p: int)
    requires
        matches_at(s, p, spec_key_addr()),
    ensures
        !matches_at(s, p, spec_key_id()),
{
    if matches_at(s, p, spec_key_id()) {
        assert(s.subrange(p, p + spec_key_addr().len() as int)[1] == spec_key_addr()[1]);
        assert(s.subrange(p, p + spec_key_id().len() as int)[1] == spec_key_id()[1]);
    }
}

/// Where the `address` key stands, the `display_name` key does not.
proof fn lemma_key_addr_not_name(s: Seq<u8>, p: int)
    requires
        matches_at(s, p, spec_key_addr()),
    ensures
        !matches_at(s, p, spec_key_name()),
{
    if matches_at(s, p, spec_key_name()) {
        assert(s.subrange(p, p + spec_key_addr().len() as int)[1] == spec_key_addr()[1]);
        assert(s.subrange(p, p + spec_key_name().len() as int)[1] == spec_key_name()[1]);
    }
}

/// Where the `message_body` key stands, the `message_title` key does not.
proof fn lemma_key_body_not_title(s: Seq<u8>, p: int)
    requires
        matches_at(s, p, spec_key_body()),
    ensures
        !matches_at(s, p, spec_key_title()),
{
    if matches_at(s, p, spec_key_title()) {
        assert(s.subrange(p, p + spec_key_body().len() as int)[9] == spec_key_body()[9]);
        assert(s.subrange(p, p + spec_key_title().len() as int)[9] == spec_key_title()[9]);
    }
}

/// Where the `receiver` key stands, the `message_title` key does not.
proof fn lemma_key_receiver_not_title(s: Seq<u8>, p: int)
    requires
        matches_at(s, p, spec_key_receiver()),
    ensures
        !matches_at(s, p, spec_key_title()),
{
    if matches_at(s, p, spec_key_title()) {
        assert(s.subrange(p, p + spec_key_receiver().len() as int)[1] == spec_key_receiver()[1]);
        assert(s.subrange(p, p + spec_key_title().len() as int)[1] == spec_key_title()[1]);
    }
}

/// Where the `receiver` key stands, the `message_body` key does not.
proof fn lemma_key_receiver_not_body(s: Seq<u8>, p: int)
    requires
        matches_at(s, p, spec_key_receiver()),
    ensures
        !matches_at(s, p, spec_key_body()),
{
    if matches_at(s, p, spec_key_body()) {
        assert(s.subrange(p, p + spec_key_receiver().len() as int)[1] == spec_key_receiver()[1]);
        assert(s.subrange(p, p + spec_key_body().len() as int)[1] == spec_key_body()[1]);
    }
}

/// Where the `sender` key stands, the `message_title` key does not.
proof fn lemma_key_sender_not_title(s: Seq<u8>, p: int)
    requires
        matches_at(s, p, spec_key_sender()),
    ensures
        !matches_at(s, p, spec_key_title()),
{
    if matches_at(s, p, spec_key_title()) {
        assert(s.subrange(p, p + spec_key_sender().len() as int)[1] == spec_key_sender()[1]);
        assert(s.subrange(p, p + spec_key_title().len() as int)[1] == spec_key_title()[1]);
    }
}

/// Where the `sender` key stands, the `message_body` key does not.
proof fn lemma_key_sender_not_body(s: Seq<u8>, p: int)
    requires
        matches_at(s, p, spec_key_sender()),
    ensures
        !matches_at(s, p, spec_key_body()),
{
    if matches_at(s, p, spec_key_body()) {
        assert(s.subrange(p, p + spec_key_sender().len() as int)[1] == spec_key_sender()[1]);
        assert(s.subrange(p, p + spec_key_body().len() as int)[1] == spec_key_body()[1]);
    }
}

/// Where the `sender` key stands, the `receiver` key does not.
proof fn lemma_key_sender_not_receiver(s: Seq<u8>, p: int)
    requires
        matches_at(s, p, spec_key_sender()),
    ensures
        !matches_at(s, p, spec_key_receiver()),
{
    if matches_at(s, p, spec_key_receiver()) {
        assert(s.subrange(p, p + spec_key_sender().len() as int)[1] == spec_key_sender()[1]);
        assert(s.subrange(p, p + spec_key_receiver().len() as int)[1] == spec_key_receiver()[1]);
    }
}

/// Where the `sender_group` key stands, the `message_title` key does not.
proof fn lemma_key_group_not_title(s: Seq<u8>, p: int)
    requires
        matches_at(s, p, spec_key_group()),
    ensures
        !matches_at(s, p, spec_key_title()),
{
    if matches_at(s, p, spec_key_title()) {
        assert(s.subrange(p, p + spec_key_group().len() as int)[1] == spec_key_group()[1]);
        assert(s.subrange(p, p + spec_key_title().len() as int)[1] == spec_key_title()[1]);
    }
}

/// Where the `sender_group` key stands, the `message_body` key does not.
proof fn lemma_key_group_not_body(s: Seq<u8>, p: int)
    requires
        matches_at(s, p, spec_key_group()),
    ensures
        !matches_at(s, p, spec_key_body()),
{
    if matches_at(s, p, spec_key_body()) {
        assert(s.subrange(p, p + spec_key_group().len() as int)[1] == spec_key_group()[1]);
        assert(s.subrange(p, p + spec_key_body().len() as int)[1] == spec_key_body()[1]);
    }
}

/// Where the `sender_group` key stands, the `receiver` key does not.
proof fn lemma_key_group_not_receiver(s: Seq<u8>, p: int)
    requires
        matches_at(s, p, spec_key_group()),
    ensures
        !matches_at(s, p, spec_key_receiver()),
{
    if matches_at(s, p, spec_key_receiver()) {
        assert(s.subrange(p, p + spec_key_group().len() as int)[1] == spec_key_group()[1]);
        assert(s.subrange(p, p + spec_key_receiver().len() as int)[1] == spec_key_receiver()[1]);
    }
}

/// Where the `sender_group` key stands, the `sender` key does not.
proof fn lemma_key_group_not_sender(s: Seq<u8>, p: int)
    requires
        matches_at(s, p, spec_key_group()),
    ensures
        !matches_at(s, p, spec_key_sender()),
{
    if matches_at(s, p, spec_key_sender()) {
        assert(s.subrange(p, p + spec_key_group().len() as int)[7] == spec_key_group()[7]);
        assert(s.subrange(p, p + spec_key_sender().len() as int)[7] == spec_key_sender()[7]);
    }
}

/// Where the `timestamp` key stands, the `message_title` key does not.
proof fn lemma_key_timestamp_not_title(s: Seq<u8>, p: int)
    requires
        matches_at(s, p, spec_key_timestamp()),
    ensures
        !matches_at(s, p, spec_key_title()),
{
    if matches_at(s, p, spec_key_title()) {
        assert(s.subrange(p, p + spec_key_timestamp().len() as int)[1] == spec_key_timestamp()[1]);
        assert(s.subrange(p, p + spec_key_title().len() as int)[1] == spec_key_title()[1]);
    }
}

/// Where the `timestamp` key stands, the `message_body` key does not.
proof fn lemma_key_timestamp_not_body(s: Seq<u8>, p: int)
    requires
        matches_at(s, p, spec_key_timestamp()),
    ensures
        !matches_at(s, p, spec_key_body()),
{
    if matches_at(s, p, spec_key_body()) {
        assert(s.subrange(p, p + spec_key_timestamp().len() as int)[1] == spec_key_timestamp()[1]);
        assert(s.subrange(p, p + spec_key_body().len() as int)[1] == spec_key_body()[1]);
    }
}

/// Where the `timestamp` key stands, the `receiver` key does not.
proof fn lemma_key_timestamp_not_receiver(s: Seq<u8>, p: int)
    requires
        matches_at(s, p, spec_key_timestamp()),
    ensures
        !matches_at(s, p, spec_key_receiver()),
{
    if matches_at(s, p, spec_key_receiver()) {
        assert(s.subrange(p, p + spec_key_timestamp().len() as int)[1] == spec_key_timestamp()[1]);
        assert(s.subrange(p, p + spec_key_receiver().len() as int)[1] == spec_key_receiver()[1]);
    }
}

/// Where the `timestamp` key stands, the `sender` key does not.
proof fn lemma_key_timestamp_not_sender(s: Seq<u8>, p: int)
    requires
        matches_at(s, p, spec_key_timestamp()),
    ensures
        !matches_at(s, p, spec_key_sender()),
{
    if matches_at(s, p, spec_key_sender()) {
        assert(s.subrange(p, p + spec_key_timestamp().len() as int)[1] == spec_key_timestamp()[1]);
        assert(s.subrange(p, p + spec_key_sender().len() as int)[1] == spec_key_sender()[1]);
    }
}

/// Where the `timestamp` key stands, the `sender_group` key does not.
proof fn lemma_key_timestamp_not_group(s: Seq<u8>, p: int)
    requires
        matches_at(s, p, spec_key_timestamp()),
    ensures
        !matches_at(s, p, spec_key_group()),
{
    if matches_at(s, p, spec_key_group()) {
        assert(s.subrange(p, p + spec_key_timestamp().len() as int)[1] == spec_key_timestamp()[1]);
        assert(s.subrange(p, p + spec_key_group().len() as int)[1] == spec_key_group()[1]);
    }
}

/// The later parts of the canonical document, each at its own offset,
/// and the earlier parts as one prefix.
#[verifier::rlimit(100)]
proof fn lemma_message_parts_tail(m: MessageModel)
    ensures
        matches_at(spec_encode_message(m), 0, spec_lit_title() + spec_string_bytes(m.message_title) + spec_lit_body() + spec_string_bytes(m.message_body) + spec_lit_receiver() + spec_encode_contact(m.receiver) + spec_lit_sender()),
        matches_at(spec_encode_message(m), spec_lit_title().len() as int + spec_string_bytes(m.message_title).len() as int + spec_lit_body().len() as int + spec_string_bytes(m.message_body).len() as int + spec_lit_receiver().len() as int + spec_encode_contact(m.receiver).len() as int + spec_lit_sender().len() as int, spec_encode_contact(m.sender)),
        matches_at(spec_encode_message(m), spec_lit_title().len() as int + spec_string_bytes(m.message_title).len() as int + spec_lit_body().len() as int + spec_string_bytes(m.message_body).len() as int + spec_lit_receiver().len() as int + spec_encode_contact(m.receiver).len() as int + spec_lit_sender().len() as int + spec_encode_contact(m.sender).len() as int, spec_lit_group()),
        matches_at(spec_encode_message(m), spec_lit_title().len() as int + spec_string_bytes(m.message_title).len() as int + spec_lit_body().len() as int + spec_string_bytes(m.message_body).len() as int + spec_lit_receiver().len() as int + spec_encode_contact(m.receiver).len() as int + spec_lit_sender().len() as int + spec_encode_contact(m.sender).len() as int + spec_lit_group().len() as int, spec_encode_group(m.sender_group)),
        matches_at(spec_encode_message(m), spec_lit_title().len() as int + spec_string_bytes(m.message_title).len() as int + spec_lit_body().len() as int + spec_string_bytes(m.message_body).len() as int + spec_lit_receiver().len() as int + spec_encode_contact(m.receiver).len() as int + spec_lit_sender().len() as int + spec_encode_contact(m.sender).len() as int + spec_lit_group().len() as int + spec_encode_group(m.sender_group).len() as int, spec_lit_timestamp()),
        matches_at(spec_encode_message(m), spec_lit_title().len() as int + spec_string_bytes(m.message_title).len() as int + spec_lit_body().len() as int + spec_string_bytes(m.message_body).len() as int + spec_lit_receiver().len() as int + spec_encode_contact(m.receiver).len() as int + spec_lit_sender().len() as int + spec_encode_contact(m.sender).len() as int + spec_lit_group().len() as int + spec_encode_group(m.sender_group).len() as int + spec_lit_timestamp().len() as int, m.timestamp),
        matches_at(spec_encode_message(m), spec_lit_title().len() as int + spec_string_bytes(m.message_title).len() as int + spec_lit_body().len() as int + spec_string_bytes(m.message_body).len() as int + spec_lit_receiver().len() as int + spec_encode_contact(m.receiver).len() as int + spec_lit_sender().len() as int + spec_encode_contact(m.sender).len() as int + spec_lit_group().len() as int + spec_encode_group(m.sender_group).len() as int + spec_lit_timestamp().len() as int + m.timestamp.len() as int, spec_lit_close()),
        spec_encode_message(m).len() as int == spec_lit_title().len() as int + spec_string_bytes(m.message_title).len() as int + spec_lit_body().len() as int + spec_string_bytes(m.message_body).len() as int + spec_lit_receiver().len() as int + spec_encode_contact(m.receiver).len() as int + spec_lit_sender().len() as int + spec_encode_contact(m.sender).len() as int + spec_lit_group().len() as int + spec_encode_group(m.sender_group).len() as int + spec_lit_timestamp().len() as int + m.timestamp.len() as int + spec_lit_close().len() as int,
{
    let s = spec_encode_message(m);
    assert(s.subrange(0, s.len() as int) =~= s);
    lemma_matches_split(s, 0, spec_lit_title() + spec_string_bytes(m.message_title) + spec_lit_body() + spec_string_bytes(m.message_body) + spec_lit_receiver() + spec_encode_contact(m.receiver) + spec_lit_sender() + spec_encode_contact(m.sender) + spec_lit_group() + spec_encode_group(m.sender_group) + spec_lit_timestamp() + m.timestamp, spec_lit_close());
    lemma_matches_split(s, 0, spec_lit_title() + spec_string_bytes(m.message_title) + spec_lit_body() + spec_string_bytes(m.message_body) + spec_lit_receiver() + spec_encode_contact(m.receiver) + spec_lit_sender() + spec_encode_contact(m.sender) + spec_lit_group() + spec_encode_group(m.sender_group) + spec_lit_timestamp(), m.timestamp);
    lemma_matches_split(s, 0, spec_lit_title() + spec_string_bytes(m.message_title) + spec_lit_body() + spec_string_bytes(m.message_body) + spec_lit_receiver() + spec_encode_contact(m.receiver) + spec_lit_sender() + spec_encode_contact(m.sender) + spec_lit_group() + spec_encode_group(m.sender_group), spec_lit_timestamp());
    lemma_matches_split(s, 0, spec_lit_title() + spec_string_bytes(m.message_title) + spec_lit_body() + spec_string_bytes(m.message_body) + spec_lit_receiver() + spec_encode_contact(m.receiver) + spec_lit_sender() + spec_encode_contact(m.sender) + spec_lit_group(), spec_encode_group(m.sender_group));
    lemma_matches_split(s, 0, spec_lit_title() + spec_string_bytes(m.message_title) + spec_lit_body() + spec_string_bytes(m.message_body) + spec_lit_receiver() + spec_encode_contact(m.receiver) + spec_lit_sender() + spec_encode_contact(m.sender), spec_lit_group());
    lemma_matches_split(s, 0, spec_lit_title() + spec_string_bytes(m.message_title) + spec_lit_body() + spec_string_bytes(m.message_body) + spec_lit_receiver() + spec_encode_contact(m.receiver) + spec_lit_sender(), spec_encode_contact(m.sender));
}

/// The earlier parts of the canonical document, each at its own offset.
#[verifier::rlimit(100)]
proof fn lemma_message_parts_head(m: MessageModel)
    requires
        matches_at(spec_encode_message(m), 0, spec_lit_title() + spec_string_bytes(m.message_title) + spec_lit_body() + spec_string_bytes(m.message_body) + spec_lit_receiver() + spec_encode_contact(m.receiver) + spec_lit_sender()),
    ensures
        matches_at(spec_encode_message(m), 0, spec_lit_title()),
        matches_at(spec_encode_message(m), spec_lit_title().len() as int, spec_string_bytes(m.message_title)),
        matches_at(spec_encode_message(m), spec_lit_title().len() as int + spec_string_bytes(m.message_title).len() as int, spec_lit_body()),
        matches_at(spec_encode_message(m), spec_lit_title().len() as int + spec_string_bytes(m.message_title).len() as int + spec_lit_body().len() as int, spec_string_bytes(m.message_body)),
        matches_at(spec_encode_message(m), spec_lit_title().len() as int + spec_string_bytes(m.message_title).len() as int + spec_lit_body().len() as int + spec_string_bytes(m.message_body).len() as int, spec_lit_receiver()),
        matches_at(spec_encode_message(m), spec_lit_title().len() as int + spec_string_bytes(m.message_title).len() as int + spec_lit_body().len() as int + spec_string_bytes(m.message_body).len() as int + spec_lit_receiver().len() as int, spec_encode_contact(m.receiver)),
        matches_at(spec_encode_message(m), spec_lit_title().len() as int + spec_string_bytes(m.message_title).len() as int + spec_lit_body().len() as int + spec_string_bytes(m.message_body).len() as int + spec_lit_receiver().len() as int + spec_encode_contact(m.receiver).len() as int, spec_lit_sender()),
{
    let s = spec_encode_message(m);
    lemma_matches_split(s, 0, spec_lit_title() + spec_string_bytes(m.message_title) + spec_lit_body() + spec_string_bytes(m.message_body) + spec_lit_receiver() + spec_encode_contact(m.receiver), spec_lit_sender());
    lemma_matches_split(s, 0, spec_lit_title() + spec_string_bytes(m.message_title) + spec_lit_body() + spec_string_bytes(m.message_body) + spec_lit_receiver(), spec_encode_contact(m.receiver));
    lemma_matches_split(s, 0, spec_lit_title() + spec_string_bytes(m.message_title) + spec_lit_body() + spec_string_bytes(m.message_body), spec_lit_receiver());
    lemma_matches_split(s, 0, spec_lit_title() + spec_string_bytes(m.message_title) + spec_lit_body(), spec_string_bytes(m.message_body));
    lemma_matches_split(s, 0, spec_lit_title() + spec_string_bytes(m.message_title), spec_lit_body());
    lemma_matches_split(s, 0, spec_lit_title(), spec_string_bytes(m.message_title));
}

/// The canonical document is its thirteen parts, each at its own offset.
#[verifier::rlimit(100)]
proof fn lemma_message_parts(m: MessageModel)
    ensures
        matches_at(spec_encode_message(m), 0, spec_lit_title()),
        matches_at(spec_encode_message(m), spec_lit_title().len() as int, spec_string_bytes(m.message_title)),
        matches_at(spec_encode_message(m), spec_lit_title().len() as int + spec_string_bytes(m.message_title).len() as int, spec_lit_body()),
        matches_at(spec_encode_message(m), spec_lit_title().len() as int + spec_string_bytes(m.message_title).len() as int + spec_lit_body().len() as int, spec_string_bytes(m.message_body)),
        matches_at(spec_encode_message(m), spec_lit_title().len() as int + spec_string_bytes(m.message_title).len() as int + spec_lit_body().len() as int + spec_string_bytes(m.message_body).len() as int, spec_lit_receiver()),
        matches_at(spec_encode_message(m), spec_lit_title().len() as int + spec_string_bytes(m.message_title).len() as int + spec_lit_body().len() as int + spec_string_bytes(m.message_body).len() as int + spec_lit_receiver().len() as int, spec_encode_contact(m.receiver)),
        matches_at(spec_encode_message(m), spec_lit_title().len() as int + spec_string_bytes(m.message_title).len() as int + spec_lit_body().len() as int + spec_string_bytes(m.message_body).len() as int + spec_lit_receiver().len() as int + spec_encode_contact(m.receiver).len() as int, spec_lit_sender()),
        matches_at(spec_encode_message(m), spec_lit_title().len() as int + spec_string_bytes(m.message_title).len() as int + spec_lit_body().len() as int + spec_string_bytes(m.message_body).len() as int + spec_lit_receiver().len() as int + spec_encode_contact(m.receiver).len() as int + spec_lit_sender().len() as int, spec_encode_contact(m.sender)),
        matches_at(spec_encode_message(m), spec_lit_title().len() as int + spec_string_bytes(m.message_title).len() as int + spec_lit_body().len() as int + spec_string_bytes(m.message_body).len() as int + spec_lit_receiver().len() as int + spec_encode_contact(m.receiver).len() as int + spec_lit_sender().len() as int + spec_encode_contact(m.sender).len() as int, spec_lit_group()),
        matches_at(spec_encode_message(m), spec_lit_title().len() as int + spec_string_bytes(m.message_title).len() as int + spec_lit_body().len() as int + spec_string_bytes(m.message_body).len() as int + spec_lit_receiver().len() as int + spec_encode_contact(m.receiver).len() as int + spec_lit_sender().len() as int + spec_encode_contact(m.sender).len() as int + spec_lit_group().len() as int, spec_encode_group(m.sender_group)),
        matches_at(spec_encode_message(m), spec_lit_title().len() as int + spec_string_bytes(m.message_title).len() as int + spec_lit_body().len() as int + spec_string_bytes(m.message_body).len() as int + spec_lit_receiver().len() as int + spec_encode_contact(m.receiver).len() as int + spec_lit_sender().len() as int + spec_encode_contact(m.sender).len() as int + spec_lit_group().len() as int + spec_encode_group(m.sender_group).len() as int, spec_lit_timestamp()),
        matches_at(spec_encode_message(m), spec_lit_title().len() as int + spec_string_bytes(m.message_title).len() as int + spec_lit_body().len() as int + spec_string_bytes(m.message_body).len() as int + spec_lit_receiver().len() as int + spec_encode_contact(m.receiver).len() as int + spec_lit_sender().len() as int + spec_encode_contact(m.sender).len() as int + spec_lit_group().len() as int + spec_encode_group(m.sender_group).len() as int + spec_lit_timestamp().len() as int, m.timestamp),
        matches_at(spec_encode_message(m), spec_lit_title().len() as int + spec_string_bytes(m.message_title).len() as int + spec_lit_body().len() as int + spec_string_bytes(m.message_body).len() as int + spec_lit_receiver().len() as int + spec_encode_contact(m.receiver).len() as int + spec_lit_sender().len() as int + spec_encode_contact(m.sender).len() as int + spec_lit_group().len() as int + spec_encode_group(m.sender_group).len() as int + spec_lit_timestamp().len() as int + m.timestamp.len() as int, spec_lit_close()),
        spec_encode_message(m).len() as int == spec_lit_title().len() as int + spec_string_bytes(m.message_title).len() as int + spec_lit_body().len() as int + spec_string_bytes(m.message_body).len() as int + spec_lit_receiver().len() as int + spec_encode_contact(m.receiver).len() as int + spec_lit_sender().len() as int + spec_encode_contact(m.sender).len() as int + spec_lit_group().len() as int + spec_encode_group(m.sender_group).len() as int + spec_lit_timestamp().len() as int + m.timestamp.len() as int + spec_lit_close().len() as int,
{
    lemma_message_parts_tail(m);
    lemma_message_parts_head(m);
}

/// A contact written canonically parses back to its fields.
#[verifier::rlimit(100)]
proof fn lemma_contact_inv(s: Seq<u8>, i: int, c: ContactModel)
    requires
        valid_contact(c),
        matches_at(s, i, spec_encode_contact(c)),
    ensures
        sp_contact(s, i) == Some((c, i + spec_encode_contact(c).len() as int)),
{
    let p1 = spec_lit_c_open();
    let p2 = spec_i64_bytes(c.database_id);
    let p3 = spec_lit_c_name();
    let p4 = spec_string_bytes(c.display_name);
    let p5 = spec_lit_c_addr();
    let p6 = spec_string_bytes(c.address);
    let p7 = spec_lit_close();
    let i1 = i + p1.len() as int;
    let i2 = i1 + p2.len() as int;
    let i3 = i2 + p3.len() as int;
    let i4 = i3 + p4.len() as int;
    let i5 = i4 + p5.len() as int;
    let i6 = i5 + p6.len() as int;
    let i7 = i6 + p7.len() as int;
    reveal(sp_contact_fields);
    lemma_matches_split(s, i, p1 + p2 + p3 + p4 + p5 + p6, p7);
    lemma_matches_split(s, i, p1 + p2 + p3 + p4 + p5, p6);
    lemma_matches_split(s, i, p1 + p2 + p3 + p4, p5);
    lemma_matches_split(s, i, p1 + p2 + p3, p4);
    lemma_matches_split(s, i, p1 + p2, p3);
    lemma_matches_split(s, i, p1, p2);
    lemma_c_open_tokens(s, i);
    lemma_c_name_tokens(s, i2);
    lemma_c_addr_tokens(s, i4);
    assert(s[i6] == s.subrange(i6, i7)[0]);
    // first bytes of the keys and values, which pin each padding scan
    assert(s[i + 1] == s.subrange(i + 1, i + 1 + spec_key_id().len() as int)[0]);
    assert(s[i2 + 1] == s.subrange(i2 + 1, i2 + 1 + spec_key_name().len() as int)[0]);
    assert(s[i4 + 1] == s.subrange(i4 + 1, i4 + 1 + spec_key_addr().len() as int)[0]);
    assert(s[i1] == s.subrange(i1, i2)[0]);
    if c.database_id >= 0 {
        crate::num::lemma_dec_u64_shape(c.database_id as nat);
    } else {
        crate::num::lemma_dec_u64_shape((-c.database_id) as nat);
        assert(p2[0] == crate::num::MINUS);
    }
    assert(!is_ws(s[i1]));
    assert(s[i3] == s.subrange(i3, i4)[0]);
    assert(p4[0] == QUOTE);
    assert(s[i5] == s.subrange(i5, i6)[0]);
    assert(p6[0] == QUOTE);
    // value inversions
    lemma_sp_i64_inv(s, i1, c.database_id);
    lemma_string_inv(s, i3, c.display_name);
    lemma_string_inv(s, i5, c.address);
    // later keys are not the earlier ones
    lemma_key_name_not_id(s, i2 + 1);
    lemma_key_addr_not_id(s, i4 + 1);
    lemma_key_addr_not_name(s, i4 + 1);
    // walk the three fields in canonical order
    let f0 = ContactFields { database_id: None, display_name: None, address: None };
    let f1 = ContactFields { database_id: Some(c.database_id), display_name: None, address: None };
    let f2 = ContactFields {
        database_id: Some(c.database_id),
        display_name: Some(c.display_name),
        address: None,
    };
    let f3 = ContactFields {
        database_id: Some(c.database_id),
        display_name: Some(c.display_name),
        address: Some(c.address),
    };
    assert(sp_contact_fields(s, i + 1, f0) == sp_contact_fields(s, i2 + 1, f1));
    assert(sp_contact_fields(s, i2 + 1, f1) == sp_contact_fields(s, i4 + 1, f2));
    assert(sp_contact_fields(s, i4 + 1, f2) == Some((f3, i7)));
    assert(sp_contact(s, i) matches Some(p) && p.0 =~= c && p.1 == i7);
}

/// A sender group written canonically parses back.
proof fn lemma_group_inv(s: Seq<u8>, i: int, g: Option<ContactModel>)
    requires
        match g {
            Some(c) => valid_contact(c),
            None => true,
        },
        matches_at(s, i, spec_encode_group(g)),
    ensures
        sp_group(s, i) == Some((g, i + spec_encode_group(g).len() as int)),
{
    match g {
        None => {
        },
        Some(c) => {
            lemma_contact_inv(s, i, c);
            // A contact opens with a brace, so the `null` branch is not taken.
            assert(s[i] == s.subrange(i, i + spec_encode_contact(c).len() as int)[0]);
            assert(spec_encode_contact(c)[0] == LBRACE);
            if matches_at(s, i, spec_lit_null()) {
                assert(s[i] == s.subrange(i, i + spec_lit_null().len() as int)[0]);
            }
        },
    }
}

/// One canonical field of a document walk: at a `message_title` key written
/// canonically, the field is read and the walk moves on.
#[verifier::rlimit(100)]
proof fn lemma_canon_title(s: Seq<u8>, i: int, f: MsgFields, t: Seq<u8>)
    requires
        f.message_title is None,
        matches_at(s, i, spec_key_title()),
        s[i + spec_key_title().len()] == COLON,
        matches_at(s, i + spec_key_title().len() + 1, spec_string_bytes(t)),
        is_utf8(t),
        ({ let e = i + spec_key_title().len() + 1 + spec_string_bytes(t).len() as int;
            e + 1 < s.len() && s[e] == COMMA && !is_ws(s[e + 1]) }),
    ensures
        ({ let e = i + spec_key_title().len() + 1 + spec_string_bytes(t).len() as int;
            sp_msg_fields(s, i, f) == sp_msg_fields(s, e + 1, (MsgFields { message_title: Some(t), ..f })) }),
{
    reveal(sp_msg_fields);
    let kl = spec_key_title().len() as int;
    let v = i + kl + 1;
    let e = v + spec_string_bytes(t).len() as int;
    assert(spec_string_bytes(t)[0] == QUOTE);
    assert(s[v] == s.subrange(v, e)[0]);
    lemma_string_inv(s, v, t);

    assert(ws_end(s, i + kl) == i + kl);
    assert(ws_end(s, v) == v);
    assert(ws_end(s, e) == e);
    assert(ws_end(s, e + 1) == e + 1);
}

/// One canonical field of a document walk: at a `message_body` key written
/// canonically, the field is read and the walk moves on.
#[verifier::rlimit(100)]
proof fn lemma_canon_body(s: Seq<u8>, i: int, f: MsgFields, t: Seq<u8>)
    requires
        f.message_body is None,
        !matches_at(s, i, spec_key_title()),
        matches_at(s, i, spec_key_body()),
        s[i + spec_key_body().len()] == COLON,
        matches_at(s, i + spec_key_body().len() + 1, spec_string_bytes(t)),
        is_utf8(t),
        ({ let e = i + spec_key_body().len() + 1 + spec_string_bytes(t).len() as int;
            e + 1 < s.len() && s[e] == COMMA && !is_ws(s[e + 1]) }),
    ensures
        ({ let e = i + spec_key_body().len() + 1 + spec_string_bytes(t).len() as int;
            sp_msg_fields(s, i, f) == sp_msg_fields(s, e + 1, (MsgFields { message_body: Some(t), ..f })) }),
{
    reveal(sp_msg_fields);
    let kl = spec_key_body().len() as int;
    let v = i + kl + 1;
    let e = v + spec_string_bytes(t).len() as int;
    assert(spec_string_bytes(t)[0] == QUOTE);
    assert(s[v] == s.subrange(v, e)[0]);
    lemma_string_inv(s, v, t);

    lemma_key_body_not_title(s, i);
    assert(ws_end(s, i + kl) == i + kl);
    assert(ws_end(s, v) == v);
    assert(ws_end(s, e) == e);
    assert(ws_end(s, e + 1) == e + 1);
}

/// One canonical field of a document walk: at a `receiver` key written
/// canonically, the field is read and the walk moves on.
#[verifier::rlimit(100)]
proof fn lemma_canon_receiver(s: Seq<u8>, i: int, f: MsgFields, c: ContactModel)
    requires
        f.receiver is None,
        !matches_at(s, i, spec_key_title()),
        !matches_at(s, i, spec_key_body()),
        matches_at(s, i, spec_key_receiver()),
        s[i + spec_key_receiver().len()] == COLON,
        matches_at(s, i + spec_key_receiver().len() + 1, spec_encode_contact(c)),
        valid_contact(c),
        ({ let e = i + spec_key_receiver().len() + 1 + spec_encode_contact(c).len() as int;
            e + 1 < s.len() && s[e] == COMMA && !is_ws(s[e + 1]) }),
    ensures
        ({ let e = i + spec_key_receiver().len() + 1 + spec_encode_contact(c).len() as int;
            sp_msg_fields(s, i, f) == sp_msg_fields(s, e + 1, (MsgFields { receiver: Some(c), ..f })) }),
{
    reveal(sp_msg_fields);
    let kl = spec_key_receiver().len() as int;
    let v = i + kl + 1;
    let e = v + spec_encode_contact(c).len() as int;
    assert(spec_encode_contact(c)[0] == LBRACE);
    assert(s[v] == s.subrange(v, e)[0]);
    lemma_contact_inv(s, v, c);

    lemma_key_receiver_not_title(s, i);
    lemma_key_receiver_not_body(s, i);
    assert(ws_end(s, i + kl) == i + kl);
    assert(ws_end(s, v) == v);
    assert(ws_end(s, e) == e);
    assert(ws_end(s, e + 1) == e + 1);
}

/// One canonical field of a document walk: at a `sender` key written
/// canonically, the field is read and the walk moves on.
#[verifier::rlimit(100)]
proof fn lemma_canon_sender(s: Seq<u8>, i: int, f: MsgFields, c: ContactModel)
    requires
        f.sender is None,
        !matches_at(s, i, spec_key_title()),
        !matches_at(s, i, spec_key_body()),
        !matches_at(s, i, spec_key_receiver()),
        matches_at(s, i, spec_key_sender()),
        s[i + spec_key_sender().len()] == COLON,
        matches_at(s, i + spec_key_sender().len() + 1, spec_encode_contact(c)),
        valid_contact(c),
        ({ let e = i + spec_key_sender().len() + 1 + spec_encode_contact(c).len() as int;
            e + 1 < s.len() && s[e] == COMMA && !is_ws(s[e + 1]) }),
    ensures
        ({ let e = i + spec_key_sender().len() + 1 + spec_encode_contact(c).len() as int;
            sp_msg_fields(s, i, f) == sp_msg_fields(s, e + 1, (MsgFields { sender: Some(c), ..f })) }),
{
    reveal(sp_msg_fields);
    let kl = spec_key_sender().len() as int;
    let v = i + kl + 1;
    let e = v + spec_encode_contact(c).len() as int;
    assert(spec_encode_contact(c)[0] == LBRACE);
    assert(s[v] == s.subrange(v, e)[0]);
    lemma_contact_inv(s, v, c);

    lemma_key_sender_not_title(s, i);
    lemma_key_sender_not_body(s, i);
    lemma_key_sender_not_receiver(s, i);
    assert(ws_end(s, i + kl) == i + kl);
    assert(ws_end(s, v) == v);
    assert(ws_end(s, e) == e);
    assert(ws_end(s, e + 1) == e + 1);
}

/// One canonical field of a document walk: at a `sender_group` key written
/// canonically, the field is read and the walk moves on.
#[verifier::rlimit(100)]
proof fn lemma_canon_group(s: Seq<u8>, i: int, f: MsgFields, g: Option<ContactModel>)
    requires
        f.sender_group is None,
        !matches_at(s, i, spec_key_title()),
        !matches_at(s, i, spec_key_body()),
        !matches_at(s, i, spec_key_receiver()),
        !matches_at(s, i, spec_key_sender()),
        matches_at(s, i, spec_key_group()),
        s[i + spec_key_group().len()] == COLON,
        matches_at(s, i + spec_key_group().len() + 1, spec_encode_group(g)),
        match g { Some(c) => valid_contact(c), None => true },
        ({ let e = i + spec_key_group().len() + 1 + spec_encode_group(g).len() as int;
            e + 1 < s.len() && s[e] == COMMA && !is_ws(s[e + 1]) }),
    ensures
        ({ let e = i + spec_key_group().len() + 1 + spec_encode_group(g).len() as int;
            sp_msg_fields(s, i, f) == sp_msg_fields(s, e + 1, (MsgFields { sender_group: Some(g), ..f })) }),
{
    reveal(sp_msg_fields);
    let kl = spec_key_group().len() as int;
    let v = i + kl + 1;
    let e = v + spec_encode_group(g).len() as int;
    match g {
        Some(c) => {
            assert(spec_encode_group(g)[0] == LBRACE);
        },
        None => {
            assert(spec_encode_group(g)[0] == 110);
        },
    }
    assert(s[v] == s.subrange(v, e)[0]);
    lemma_group_inv(s, v, g);

    lemma_key_group_not_title(s, i);
    lemma_key_group_not_body(s, i);
    lemma_key_group_not_receiver(s, i);
    lemma_key_group_not_sender(s, i);
    assert(ws_end(s, i + kl) == i + kl);
    assert(ws_end(s, v) == v);
    assert(ws_end(s, e) == e);
    assert(ws_end(s, e + 1) == e + 1);
}

/// One canonical field of a document walk: at a `timestamp` key written
/// canonically, the field is read and the walk moves on.
#[verifier::rlimit(100)]
proof fn lemma_canon_timestamp(s: Seq<u8>, i: int, f: MsgFields, t: Seq<u8>)
    requires
        f.timestamp is None,
        !matches_at(s, i, spec_key_title()),
        !matches_at(s, i, spec_key_body()),
        !matches_at(s, i, spec_key_receiver()),
        !matches_at(s, i, spec_key_sender()),
        !matches_at(s, i, spec_key_group()),
        matches_at(s, i, spec_key_timestamp()),
        s[i + spec_key_timestamp().len()] == COLON,
        matches_at(s, i + spec_key_timestamp().len() + 1, t),
        is_json_number(t),
        ({ let e = i + spec_key_timestamp().len() + 1 + t.len() as int;
            e < s.len() && s[e] == RBRACE && !is_number_byte(s[e]) }),
    ensures
        ({ let e = i + spec_key_timestamp().len() + 1 + t.len() as int;
            sp_msg_fields(s, i, f) == Some(((MsgFields { timestamp: Some(t), ..f }), e + 1)) }),
{
    reveal(sp_msg_fields);
    let kl = spec_key_timestamp().len() as int;
    let v = i + kl + 1;
    let e = v + t.len() as int;
    assert(t.len() >= 1) by {
        if t.len() == 0 {
            assert(crate::num::num_run(t) == crate::num::NumState::Start);
        }
    }
    crate::num::lemma_number_bytes(t);
    assert(s[v] == s.subrange(v, e)[0]);
    assert(is_number_byte(t[0]));
    assert(!is_ws(s[v]));
    lemma_sp_number_inv(s, v, t);

    lemma_key_timestamp_not_title(s, i);
    lemma_key_timestamp_not_body(s, i);
    lemma_key_timestamp_not_receiver(s, i);
    lemma_key_timestamp_not_sender(s, i);
    lemma_key_timestamp_not_group(s, i);
    assert(ws_end(s, i + kl) == i + kl);
    assert(ws_end(s, v) == v);
    assert(ws_end(s, e) == e);
}
/// Walking the canonical document reads the title, the body and the
/// receiver, in that order.
#[verifier::rlimit(100)]
proof fn lemma_msg_walk_front(m: MessageModel)
    requires
        valid_message(m),
    ensures
        sp_msg_fields(spec_encode_message(m), 1, (MsgFields { message_title: None, message_body: None, receiver: None, sender: None, sender_group: None, timestamp: None })) == sp_msg_fields(
            spec_encode_message(m),
            (spec_lit_title().len() as int + spec_string_bytes(m.message_title).len() as int + spec_lit_body().len() as int + spec_string_bytes(m.message_body).len() as int + spec_lit_receiver().len() as int + spec_encode_contact(m.receiver).len() as int) + 1,
            (MsgFields { message_title: Some(m.message_title), message_body: Some(m.message_body), receiver: Some(m.receiver), sender: None, sender_group: None, timestamp: None }),
        ),
{
    let s = spec_encode_message(m);
    let p1 = spec_lit_title();
    let p2 = spec_string_bytes(m.message_title);
    let p3 = spec_lit_body();
    let p4 = spec_string_bytes(m.message_body);
    let p5 = spec_lit_receiver();
    let p6 = spec_encode_contact(m.receiver);
    let p7 = spec_lit_sender();
    let p8 = spec_encode_contact(m.sender);
    let p9 = spec_lit_group();
    let p10 = spec_encode_group(m.sender_group);
    let p11 = spec_lit_timestamp();
    let p12 = m.timestamp;
    let p13 = spec_lit_close();
    let i1 = 0 + p1.len() as int;
    let i2 = i1 + p2.len() as int;
    let i3 = i2 + p3.len() as int;
    let i4 = i3 + p4.len() as int;
    let i5 = i4 + p5.len() as int;
    let i6 = i5 + p6.len() as int;
    let i7 = i6 + p7.len() as int;
    let i8 = i7 + p8.len() as int;
    let i9 = i8 + p9.len() as int;
    let i10 = i9 + p10.len() as int;
    let i11 = i10 + p11.len() as int;
    let i12 = i11 + p12.len() as int;
    let i13 = i12 + p13.len() as int;
    lemma_message_parts(m);
    lemma_title_tokens(s, 0);
    lemma_body_tokens(s, i2);
    lemma_receiver_tokens(s, i4);
    lemma_sender_tokens(s, i6);
    assert(s[i2 + 1] == s.subrange(i2 + 1, i2 + 1 + spec_key_body().len() as int)[0]);
    assert(s[i4 + 1] == s.subrange(i4 + 1, i4 + 1 + spec_key_receiver().len() as int)[0]);
    assert(s[i6 + 1] == s.subrange(i6 + 1, i6 + 1 + spec_key_sender().len() as int)[0]);
    let f0 = (MsgFields { message_title: None, message_body: None, receiver: None, sender: None, sender_group: None, timestamp: None });
    let f1 = (MsgFields { message_title: Some(m.message_title), message_body: None, receiver: None, sender: None, sender_group: None, timestamp: None });
    let f2 = (MsgFields { message_title: Some(m.message_title), message_body: Some(m.message_body), receiver: None, sender: None, sender_group: None, timestamp: None });
    let f3 = (MsgFields { message_title: Some(m.message_title), message_body: Some(m.message_body), receiver: Some(m.receiver), sender: None, sender_group: None, timestamp: None });
    lemma_canon_title(s, 1, f0, m.message_title);
    assert(sp_msg_fields(s, 1, f0) == sp_msg_fields(s, i2 + 1, f1));
    lemma_canon_body(s, i2 + 1, f1, m.message_body);
    assert(sp_msg_fields(s, i2 + 1, f1) == sp_msg_fields(s, i4 + 1, f2));
    lemma_canon_receiver(s, i4 + 1, f2, m.receiver);
    assert(sp_msg_fields(s, i4 + 1, f2) == sp_msg_fields(s, i6 + 1, f3));
}

/// Walking the canonical document then reads the sender, the sender group
/// and the timestamp, and ends after the closing brace.
#[verifier::rlimit(100)]
proof fn lemma_msg_walk_back(m: MessageModel)
    requires
        valid_message(m),
    ensures
        sp_msg_fields(spec_encode_message(m), (spec_lit_title().len() as int + spec_string_bytes(m.message_title).len() as int + spec_lit_body().len() as int + spec_string_bytes(m.message_body).len() as int + spec_lit_receiver().len() as int + spec_encode_contact(m.receiver).len() as int) + 1, (MsgFields { message_title: Some(m.message_title), message_body: Some(m.message_body), receiver: Some(m.receiver), sender: None, sender_group: None, timestamp: None })) == Some(
            ((MsgFields { message_title: Some(m.message_title), message_body: Some(m.message_body), receiver: Some(m.receiver), sender: Some(m.sender), sender_group: Some(m.sender_group), timestamp: Some(m.timestamp) }), spec_lit_title().len() as int + spec_string_bytes(m.message_title).len() as int + spec_lit_body().len() as int + spec_string_bytes(m.message_body).len() as int + spec_lit_receiver().len() as int + spec_encode_contact(m.receiver).len() as int + spec_lit_sender().len() as int + spec_encode_contact(m.sender).len() as int + spec_lit_group().len() as int + spec_encode_group(m.sender_group).len() as int + spec_lit_timestamp().len() as int + m.timestamp.len() as int + spec_lit_close().len() as int),
        ),
{
    let s = spec_encode_message(m);
    let p1 = spec_lit_title();
    let p2 = spec_string_bytes(m.message_title);
    let p3 = spec_lit_body();
    let p4 = spec_string_bytes(m.message_body);
    let p5 = spec_lit_receiver();
    let p6 = spec_encode_contact(m.receiver);
    let p7 = spec_lit_sender();
    let p8 = spec_encode_contact(m.sender);
    let p9 = spec_lit_group();
    let p10 = spec_encode_group(m.sender_group);
    let p11 = spec_lit_timestamp();
    let p12 = m.timestamp;
    let p13 = spec_lit_close();
    let i1 = 0 + p1.len() as int;
    let i2 = i1 + p2.len() as int;
    let i3 = i2 + p3.len() as int;
    let i4 = i3 + p4.len() as int;
    let i5 = i4 + p5.len() as int;
    let i6 = i5 + p6.len() as int;
    let i7 = i6 + p7.len() as int;
    let i8 = i7 + p8.len() as int;
    let i9 = i8 + p9.len() as int;
    let i10 = i9 + p10.len() as int;
    let i11 = i10 + p11.len() as int;
    let i12 = i11 + p12.len() as int;
    let i13 = i12 + p13.len() as int;
    lemma_message_parts(m);
    lemma_sender_tokens(s, i6);
    lemma_group_tokens(s, i8);
    lemma_timestamp_tokens(s, i10);
    assert(s[i8 + 1] == s.subrange(i8 + 1, i8 + 1 + spec_key_group().len() as int)[0]);
    assert(s[i10 + 1] == s.subrange(i10 + 1, i10 + 1 + spec_key_timestamp().len() as int)[0]);
    assert(s[i12] == s.subrange(i12, i13)[0]);
    let f3 = (MsgFields { message_title: Some(m.message_title), message_body: Some(m.message_body), receiver: Some(m.receiver), sender: None, sender_group: None, timestamp: None });
    let f4 = (MsgFields { message_title: Some(m.message_title), message_body: Some(m.message_body), receiver: Some(m.receiver), sender: Some(m.sender), sender_group: None, timestamp: None });
    let f5 = (MsgFields { message_title: Some(m.message_title), message_body: Some(m.message_body), receiver: Some(m.receiver), sender: Some(m.sender), sender_group: Some(m.sender_group), timestamp: None });
    let f6 = (MsgFields { message_title: Some(m.message_title), message_body: Some(m.message_body), receiver: Some(m.receiver), sender: Some(m.sender), sender_group: Some(m.sender_group), timestamp: Some(m.timestamp) });
    lemma_canon_sender(s, i6 + 1, f3, m.sender);
    assert(sp_msg_fields(s, i6 + 1, f3) == sp_msg_fields(s, i8 + 1, f4));
    lemma_canon_group(s, i8 + 1, f4, m.sender_group);
    assert(sp_msg_fields(s, i8 + 1, f4) == sp_msg_fields(s, i10 + 1, f5));
    lemma_canon_timestamp(s, i10 + 1, f5, m.timestamp);
    assert(sp_msg_fields(s, i10 + 1, f5) == Some((f6, i13)));
}

/// Round trip: every valid message, encoded canonically, decodes back to
/// itself, field for field, whether or not a sender group is present.
#[verifier::rlimit(100)]
pub proof fn lemma_round_trip(m: MessageModel)
    requires
        valid_message(m),
    ensures
        sp_message(spec_encode_message(m)) == Some(m),
{
    let s = spec_encode_message(m);
    let p1 = spec_lit_title();
    let p2 = spec_string_bytes(m.message_title);
    let p3 = spec_lit_body();
    let p4 = spec_string_bytes(m.message_body);
    let p5 = spec_lit_receiver();
    let p6 = spec_encode_contact(m.receiver);
    let p7 = spec_lit_sender();
    let p8 = spec_encode_contact(m.sender);
    let p9 = spec_lit_group();
    let p10 = spec_encode_group(m.sender_group);
    let p11 = spec_lit_timestamp();
    let p12 = m.timestamp;
    let p13 = spec_lit_close();
    let i1 = 0 + p1.len() as int;
    let i2 = i1 + p2.len() as int;
    let i3 = i2 + p3.len() as int;
    let i4 = i3 + p4.len() as int;
    let i5 = i4 + p5.len() as int;
    let i6 = i5 + p6.len() as int;
    let i7 = i6 + p7.len() as int;
    let i8 = i7 + p8.len() as int;
    let i9 = i8 + p9.len() as int;
    let i10 = i9 + p10.len() as int;
    let i11 = i10 + p11.len() as int;
    let i12 = i11 + p12.len() as int;
    let i13 = i12 + p13.len() as int;
    lemma_message_parts(m);
    lemma_title_tokens(s, 0);
    assert(s[1] == s.subrange(1, 1 + spec_key_title().len() as int)[0]);
    lemma_msg_walk_front(m);
    lemma_msg_walk_back(m);
    let f0 = (MsgFields { message_title: None, message_body: None, receiver: None, sender: None, sender_group: None, timestamp: None });
    let f6 = (MsgFields { message_title: Some(m.message_title), message_body: Some(m.message_body), receiver: Some(m.receiver), sender: Some(m.sender), sender_group: Some(m.sender_group), timestamp: Some(m.timestamp) });
    assert(sp_msg_fields(s, 1, f0) == Some((f6, i13)));
    assert(i13 == s.len());
    assert(sp_message(s) matches Some(mm) && mm =~= m);
}

/// Wherever a walk starts with no receiver yet, and the quoted `receiver`
/// key occurs nowhere in the document, the walk cannot produce one.
proof fn lemma_fields_keep_missing_receiver(s: Seq<u8>, i: int, f: MsgFields)
    requires
        forall|p: int| !matches_at(s, p, spec_key_receiver()),
        f.receiver is None,
    ensures
        match sp_msg_fields(s, i, f) {
            Some(r) => r.0.receiver is None,
            None => true,
        },
    decreases msg_missing(f),
{
    reveal(sp_msg_fields);
    assert(!matches_at(s, i, spec_key_receiver()));
    if matches_at(s, i, spec_key_title()) {
        if f.message_title is None {
            let c = ws_end(s, i + spec_key_title().len());
            if c < s.len() && s[c] == COLON {
                match sp_string(s, ws_end(s, c + 1)) {
                    Some((val, jv)) => {
                        let f2 = MsgFields { message_title: Some(val), ..f };
                        let j2 = ws_end(s, jv);
                        if j2 < s.len() && s[j2] == COMMA {
                            lemma_fields_keep_missing_receiver(s, ws_end(s, j2 + 1), f2);
                        }
                    },
                    None => {},
                }
            }
        }
    } else if matches_at(s, i, spec_key_body()) {
        if f.message_body is None {
            let c = ws_end(s, i + spec_key_body().len());
            if c < s.len() && s[c] == COLON {
                match sp_string(s, ws_end(s, c + 1)) {
                    Some((val, jv)) => {
                        let f2 = MsgFields { message_body: Some(val), ..f };
                        let j2 = ws_end(s, jv);
                        if j2 < s.len() && s[j2] == COMMA {
                            lemma_fields_keep_missing_receiver(s, ws_end(s, j2 + 1), f2);
                        }
                    },
                    None => {},
                }
            }
        }
    } else if matches_at(s, i, spec_key_sender()) {
        if f.sender is None {
            let c = ws_end(s, i + spec_key_sender().len());
            if c < s.len() && s[c] == COLON {
                match sp_contact(s, ws_end(s, c + 1)) {
                    Some((val, jv)) => {
                        let f2 = MsgFields { sender: Some(val), ..f };
                        let j2 = ws_end(s, jv);
                        if j2 < s.len() && s[j2] == COMMA {
                            lemma_fields_keep_missing_receiver(s, ws_end(s, j2 + 1), f2);
                        }
                    },
                    None => {},
                }
            }
        }
    } else if matches_at(s, i, spec_key_group()) {
        if f.sender_group is None {
            let c = ws_end(s, i + spec_key_group().len());
            if c < s.len() && s[c] == COLON {
                match sp_group(s, ws_end(s, c + 1)) {
                    Some((val, jv)) => {
                        let f2 = MsgFields { sender_group: Some(val), ..f };
                        let j2 = ws_end(s, jv);
                        if j2 < s.len() && s[j2] == COMMA {
                            lemma_fields_keep_missing_receiver(s, ws_end(s, j2 + 1), f2);
                        }
                    },
                    None => {},
                }
            }
        }
    } else if matches_at(s, i, spec_key_timestamp()) {
        if f.timestamp is None {
            let c = ws_end(s, i + spec_key_timestamp().len());
            if c < s.len() && s[c] == COLON {
                match sp_number(s, ws_end(s, c + 1)) {
                    Some((val, jv)) => {
                        let f2 = MsgFields { timestamp: Some(val), ..f };
                        let j2 = ws_end(s, jv);
                        if j2 < s.len() && s[j2] == COMMA {
                            lemma_fields_keep_missing_receiver(s, ws_end(s, j2 + 1), f2);
                        }
                    },
                    None => {},
                }
            }
        }
    }
}

/// A document in which the quoted `receiver` key occurs nowhere does not
/// decode: the required field cannot be filled, so the parse is rejected.
pub proof fn lemma_missing_receiver_rejected(s: Seq<u8>)
    requires
        forall|p: int| !matches_at(s, p, spec_key_receiver()),
    ensures
        sp_message(s) is None,
{
    let i0 = ws_end(s, 0);
    if i0 < s.len() && s[i0] == LBRACE {
        let f0 = MsgFields {
            message_title: None,
            message_body: None,
            receiver: None,
            sender: None,
            sender_group: None,
            timestamp: None,
        };
        lemma_fields_keep_missing_receiver(s, ws_end(s, i0 + 1), f0);
    }
}

/// A reply to any valid message, with well-formed text as its content,
/// encodes to a document that decodes back to the reply: the rewritten
/// message file always holds a well-formed document.
pub proof fn lemma_reply_decodable(m: MessageModel, title: Seq<u8>, body: Seq<u8>)
    requires
        valid_message(m),
        is_utf8(title),
        is_utf8(body),
    ensures
        sp_message(spec_encode_message(crate::message::spec_reply(m, title, body))) == Some(
            crate::message::spec_reply(m, title, body),
        ),
{
    crate::message::lemma_reply_valid(m, title, body);
    lemma_round_trip(crate::message::spec_reply(m, title, body));
}

} // verus!
