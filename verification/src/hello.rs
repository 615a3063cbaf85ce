//! The sample service: applicability by a fixed greeting.
//!
//! The framework leaves one point to each concrete service: the predicate
//! that decides whether a message is for it.  This service answers messages
//! whose body, lowercased letter by letter, reads `hello rust!`.

use vstd::prelude::*;

use crate::message::Message;

verus! {

/// `b` with an ASCII capital letter mapped to its small form.
pub open spec fn lower_byte(b: u8) -> u8 {
    if 65 <= b && b <= 90 {
        (b + 32) as u8
    } else {
        b
    }
}

/// `s` with every ASCII capital letter mapped to its small form.
pub open spec fn ascii_lower(s: Seq<u8>) -> Seq<u8> {
    s.map_values(|b: u8| lower_byte(b))
}

/// The bytes of `hello rust!`.
pub open spec fn spec_hello_trigger() -> Seq<u8> {
    seq![104, 101, 108, 108, 111, 32, 114, 117, 115, 116, 33u8]
}

/// `v` lowercased, executable.
pub fn ascii_lower_exec(v: &Vec<u8>) -> (r: Vec<u8>)
    ensures
        r@ == ascii_lower(v@),
{
    let mut r: Vec<u8> = Vec::new();
    let mut k: usize = 0;
    while k < v.len()
        invariant
            k <= v.len(),
            r@ == ascii_lower(v@.subrange(0, k as int)),
        decreases v.len() - k,
    {
        let b = v[k];
        r.push(if 65 <= b && b <= 90 { b + 32 } else { b });
        k = k + 1;
        proof {
            assert(r@ =~= ascii_lower(v@.subrange(0, k as int)));
        }
    }
    proof {
        assert(v@.subrange(0, v@.len() as int) =~= v@);
    }
    r
}

/// Whether this service applies to `m`: the body, lowercased, is exactly
/// `hello rust!`.
pub fn hello_rust_applicable(m: &Message) -> (r: bool)
    ensures
        r == (ascii_lower(m@.message_body) == spec_hello_trigger()),
{
    let lowered = ascii_lower_exec(&m.message_body);
    let trigger: Vec<u8> = vec![104, 101, 108, 108, 111, 32, 114, 117, 115, 116, 33u8];
    proof {
        assert(trigger@ =~= spec_hello_trigger());
    }
    crate::protocol::bytes_eq(&lowered, &trigger)
}

} // verus!
