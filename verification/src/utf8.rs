//! Well-formed text: the byte sequences that encode Unicode scalar values.
//!
//! Every string field of a message must hold text, so the decoder checks each
//! field against this predicate: one- to four-byte sequences with the ranges
//! that exclude overlong forms, surrogates, and values past the last plane.

use vstd::prelude::*;

verus! {

/// `b` is a continuation byte.
pub open spec fn is_cont(b: u8) -> bool {
    128 <= b && b <= 191
}

/// `s` is well-formed text, encoded one scalar value at a time.
pub open spec fn is_utf8(s: Seq<u8>) -> bool
    decreases s.len(),
{
    if s.len() == 0 {
        true
    } else {
        let b = s[0];
        if b < 128 {
            is_utf8(s.skip(1))
        } else if 194 <= b && b <= 223 {
            s.len() >= 2 && is_cont(s[1]) && is_utf8(s.skip(2))
        } else if b == 224 {
            s.len() >= 3 && 160 <= s[1] && s[1] <= 191 && is_cont(s[2]) && is_utf8(s.skip(3))
        } else if 225 <= b && b <= 236 {
            s.len() >= 3 && is_cont(s[1]) && is_cont(s[2]) && is_utf8(s.skip(3))
        } else if b == 237 {
            s.len() >= 3 && 128 <= s[1] && s[1] <= 159 && is_cont(s[2]) && is_utf8(s.skip(3))
        } else if 238 <= b && b <= 239 {
            s.len() >= 3 && is_cont(s[1]) && is_cont(s[2]) && is_utf8(s.skip(3))
        } else if b == 240 {
            s.len() >= 4 && 144 <= s[1] && s[1] <= 191 && is_cont(s[2]) && is_cont(s[3]) && is_utf8(
                s.skip(4),
            )
        } else if 241 <= b && b <= 243 {
            s.len() >= 4 && is_cont(s[1]) && is_cont(s[2]) && is_cont(s[3]) && is_utf8(s.skip(4))
        } else if b == 244 {
            s.len() >= 4 && 128 <= s[1] && s[1] <= 143 && is_cont(s[2]) && is_cont(s[3]) && is_utf8(
                s.skip(4),
            )
        } else {
            false
        }
    }
}

/// Skipping in two steps is skipping once.
proof fn lemma_skip_skip(s: Seq<u8>, i: int, k: int)
    requires
        0 <= i,
        0 <= k,
        i + k <= s.len(),
    ensures
        s.skip(i).skip(k) =~= s.skip(i + k),
{
}

/// Decides `is_utf8`.
pub fn check_utf8(v: &Vec<u8>) -> (r: bool)
    ensures
        r == is_utf8(v@),
{
    let n = v.len();
    let mut i: usize = 0;
    assert(v@.skip(0) =~= v@);
    while i < n
        invariant
            i <= n,
            n == v.len(),
            is_utf8(v@) == is_utf8(v@.skip(i as int)),
        decreases n - i,
    {
        let ghost tail = v@.skip(i as int);
        proof {
            assert(tail.len() == n - i);
            assert forall|k: int| 0 <= k < tail.len() implies tail[k] == v@[i + k] by {}
        }
        let b = v[i];
        assert(b == tail[0]);
        let w: usize = if b < 128 {
            1
        } else if 194 <= b && b <= 223 {
            if n - i < 2 || !(128 <= v[i + 1] && v[i + 1] <= 191) {
                return false;
            }
            2
        } else if b == 224 {
            if n - i < 3 || !(160 <= v[i + 1] && v[i + 1] <= 191) || !(128 <= v[i + 2] && v[i + 2]
                <= 191) {
                return false;
            }
            3
        } else if 225 <= b && b <= 236 {
            if n - i < 3 || !(128 <= v[i + 1] && v[i + 1] <= 191) || !(128 <= v[i + 2] && v[i + 2]
                <= 191) {
                return false;
            }
            3
        } else if b == 237 {
            if n - i < 3 || !(128 <= v[i + 1] && v[i + 1] <= 159) || !(128 <= v[i + 2] && v[i + 2]
                <= 191) {
                return false;
            }
            3
        } else if 238 <= b && b <= 239 {
            if n - i < 3 || !(128 <= v[i + 1] && v[i + 1] <= 191) || !(128 <= v[i + 2] && v[i + 2]
                <= 191) {
                return false;
            }
            3
        } else if b == 240 {
            if n - i < 4 || !(144 <= v[i + 1] && v[i + 1] <= 191) || !(128 <= v[i + 2] && v[i + 2]
                <= 191) || !(128 <= v[i + 3] && v[i + 3] <= 191) {
                return false;
            }
            4
        } else if 241 <= b && b <= 243 {
            if n - i < 4 || !(128 <= v[i + 1] && v[i + 1] <= 191) || !(128 <= v[i + 2] && v[i + 2]
                <= 191) || !(128 <= v[i + 3] && v[i + 3] <= 191) {
                return false;
            }
            4
        } else if b == 244 {
            if n - i < 4 || !(128 <= v[i + 1] && v[i + 1] <= 143) || !(128 <= v[i + 2] && v[i + 2]
                <= 191) || !(128 <= v[i + 3] && v[i + 3] <= 191) {
                return false;
            }
            4
        } else {
            return false;
        };
        proof {
            lemma_skip_skip(v@, i as int, w as int);
            assert(is_utf8(tail) == is_utf8(v@.skip(i + w)));
        }
        i = i + w;
    }
    proof {
        assert(v@.skip(n as int) =~= Seq::<u8>::empty());
        assert(is_utf8(Seq::<u8>::empty()));
    }
    true
}

} // verus!
