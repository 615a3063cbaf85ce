//! String bodies: escaping for the message document, and its inverse.
//!
//! A string field is written between double quotes.  The writer escapes a
//! quote or a backslash with a backslash and writes a control byte as a
//! lowercase hexadecimal escape; every other byte passes through unchanged,
//! so multi-byte text is carried verbatim.  The parser reads the full escape
//! syntax: the one-byte escapes, hexadecimal escapes, and surrogate pairs.

use vstd::prelude::*;

use crate::num::{is_digit, D0};

verus! {

/// ASCII `"`.
pub const QUOTE: u8 = 34;

/// ASCII `\`.
pub const BSL: u8 = 92;

/// ASCII `u`.
pub const LOW_U: u8 = 117;

/// The lowercase hexadecimal digit of `v`, for `0 <= v < 16`.
pub open spec fn hex_digit(v: int) -> u8 {
    if v < 10 {
        (48 + v) as u8
    } else {
        (87 + v) as u8
    }
}

/// The value of a hexadecimal digit, or -1.
pub open spec fn hex_val(b: u8) -> int {
    if is_digit(b) {
        b as int - 48
    } else if 97 <= b && b <= 102 {
        b as int - 87
    } else if 65 <= b && b <= 70 {
        b as int - 55
    } else {
        -1
    }
}

/// `b` is a hexadecimal digit.
pub open spec fn is_hex(b: u8) -> bool {
    hex_val(b) >= 0
}

/// How one content byte is written inside a quoted string.
pub open spec fn esc_byte(b: u8) -> Seq<u8> {
    if b == QUOTE {
        seq![BSL, QUOTE]
    } else if b == BSL {
        seq![BSL, BSL]
    } else if b < 32 {
        seq![BSL, LOW_U, D0, D0, hex_digit(b as int / 16), hex_digit(b as int % 16)]
    } else {
        seq![b]
    }
}

/// How a whole string content is written inside a quoted string.
pub open spec fn esc(t: Seq<u8>) -> Seq<u8>
    decreases t.len(),
{
    if t.len() == 0 {
        Seq::empty()
    } else {
        esc_byte(t[0]) + esc(t.skip(1))
    }
}

/// Escaping distributes over appending one byte.
pub proof fn lemma_esc_push(t: Seq<u8>, b: u8)
    ensures
        esc(t.push(b)) == esc(t) + esc_byte(b),
    decreases t.len(),
{
    if t.len() == 0 {
        assert(t.push(b).skip(1) =~= Seq::<u8>::empty());
        assert(t.push(b)[0] == b);
        assert(esc(Seq::<u8>::empty()) =~= Seq::<u8>::empty());
        assert(esc(t.push(b)) =~= esc(t) + esc_byte(b));
    } else {
        assert(t.push(b).skip(1) =~= t.skip(1).push(b));
        lemma_esc_push(t.skip(1), b);
        assert(esc(t.push(b)) =~= esc(t) + esc_byte(b));
    }
}

/// Appends the escaped form of `t` to `out`.
pub fn push_escaped(out: &mut Vec<u8>, t: &Vec<u8>)
    ensures
        final(out)@ == old(out)@ + esc(t@),
{
    let mut k: usize = 0;
    assert(t@.subrange(0, 0) =~= Seq::<u8>::empty());
    assert(esc(t@.subrange(0, 0)) =~= Seq::<u8>::empty());
    assert(out@ =~= old(out)@ + esc(t@.subrange(0, 0)));
    while k < t.len()
        invariant
            k <= t.len(),
            out@ == old(out)@ + esc(t@.subrange(0, k as int)),
        decreases t.len() - k,
    {
        let b = t[k];
        if b == QUOTE {
            out.push(BSL);
            out.push(QUOTE);
        } else if b == BSL {
            out.push(BSL);
            out.push(BSL);
        } else if b < 32 {
            out.push(BSL);
            out.push(LOW_U);
            out.push(D0);
            out.push(D0);
            let hi = b / 16;
            let lo = b % 16;
            out.push(if hi < 10 { 48 + hi } else { 87 + hi });
            out.push(if lo < 10 { 48 + lo } else { 87 + lo });
        } else {
            out.push(b);
        }
        proof {
            lemma_esc_push(t@.subrange(0, k as int), b);
            assert(t@.subrange(0, k + 1) =~= t@.subrange(0, k as int).push(b));
            assert(out@ =~= old(out)@ + esc(t@.subrange(0, k + 1)));
        }
        k = k + 1;
    }
    proof {
        assert(t@.subrange(0, t@.len() as int) =~= t@);
    }
}

/// ASCII `/`.
pub const SLASH: u8 = 47;

/// `b` names a one-byte escape: quote, backslash, slash, or one of the five
/// control-letter escapes.
pub open spec fn is_single_escape(b: u8) -> bool {
    b == QUOTE || b == BSL || b == SLASH || b == 98 || b == 102 || b == 110 || b == 114 || b == 116
}

/// The byte a one-byte escape stands for.
pub open spec fn single_escape(b: u8) -> u8 {
    if b == 98 {
        8
    } else if b == 102 {
        12
    } else if b == 110 {
        10
    } else if b == 114 {
        13
    } else if b == 116 {
        9
    } else {
        b
    }
}

/// The value of the four hexadecimal digits at `i`.
pub open spec fn hex4(s: Seq<u8>, i: int) -> int {
    hex_val(s[i]) * 4096 + hex_val(s[i + 1]) * 256 + hex_val(s[i + 2]) * 16 + hex_val(s[i + 3])
}

/// The byte encoding of the scalar value `v`, for `0 <= v < 0x110000`.
pub open spec fn utf8_of(v: int) -> Seq<u8> {
    if v < 0x80 {
        seq![v as u8]
    } else if v < 0x800 {
        seq![(0xC0 + v / 0x40) as u8, (0x80 + v % 0x40) as u8]
    } else if v < 0x10000 {
        seq![(0xE0 + v / 0x1000) as u8, (0x80 + (v / 0x40) % 0x40) as u8, (0x80 + v % 0x40) as u8]
    } else {
        seq![
            (0xF0 + v / 0x40000) as u8,
            (0x80 + (v / 0x1000) % 0x40) as u8,
            (0x80 + (v / 0x40) % 0x40) as u8,
            (0x80 + v % 0x40) as u8,
        ]
    }
}

/// Parses a string body at `i` (just after the opening quote) up to and over
/// the closing quote.  Accepts the one-byte escapes, hexadecimal escapes with
/// their surrogate pairs, and any unescaped byte other than a quote, a
/// backslash or a control byte.  Returns the content and the position after
/// the closing quote.
pub open spec fn sp_str_body(s: Seq<u8>, i: int) -> Option<(Seq<u8>, int)>
    decreases s.len() - i,
{
    if !(0 <= i && i < s.len()) {
        None
    } else if s[i] == QUOTE {
        Some((Seq::empty(), i + 1))
    } else if s[i] == BSL {
        if i + 1 < s.len() && is_single_escape(s[i + 1]) {
            match sp_str_body(s, i + 2) {
                Some((t, j)) => Some((seq![single_escape(s[i + 1])] + t, j)),
                None => None,
            }
        } else if i + 5 < s.len() && s[i + 1] == LOW_U && is_hex(s[i + 2]) && is_hex(s[i + 3])
            && is_hex(s[i + 4]) && is_hex(s[i + 5]) {
            let v = hex4(s, i + 2);
            if 0xD800 <= v && v <= 0xDBFF {
                if i + 11 < s.len() && s[i + 6] == BSL && s[i + 7] == LOW_U && is_hex(s[i + 8])
                    && is_hex(s[i + 9]) && is_hex(s[i + 10]) && is_hex(s[i + 11]) && 0xDC00 <= hex4(
                    s,
                    i + 8,
                ) && hex4(s, i + 8) <= 0xDFFF {
                    match sp_str_body(s, i + 12) {
                        Some((t, j)) => Some(
                            (
                                utf8_of(
                                    0x10000 + (v - 0xD800) * 0x400 + (hex4(s, i + 8) - 0xDC00),
                                ) + t,
                                j,
                            ),
                        ),
                        None => None,
                    }
                } else {
                    None
                }
            } else if 0xDC00 <= v && v <= 0xDFFF {
                None
            } else {
                match sp_str_body(s, i + 6) {
                    Some((t, j)) => Some((utf8_of(v) + t, j)),
                    None => None,
                }
            }
        } else {
            None
        }
    } else if s[i] < 32 {
        None
    } else {
        match sp_str_body(s, i + 1) {
            Some((t, j)) => Some((seq![s[i]] + t, j)),
            None => None,
        }
    }
}

/// The value of a hexadecimal digit, or 255.
fn hex_val_exec(b: u8) -> (v: u8)
    ensures
        is_hex(b) ==> v as int == hex_val(b),
        !is_hex(b) ==> v == 255,
{
    if 48 <= b && b <= 57 {
        b - 48
    } else if 97 <= b && b <= 102 {
        b - 87
    } else if 65 <= b && b <= 70 {
        b - 55
    } else {
        255
    }
}

/// Appends the byte encoding of the scalar value `v` to `out`.
fn push_utf8(out: &mut Vec<u8>, v: u32)
    requires
        v < 0x110000,
    ensures
        final(out)@ == old(out)@ + utf8_of(v as int),
{
    if v < 0x80 {
        out.push(v as u8);
    } else if v < 0x800 {
        out.push((0xC0 + v / 0x40) as u8);
        out.push((0x80 + v % 0x40) as u8);
    } else if v < 0x10000 {
        out.push((0xE0 + v / 0x1000) as u8);
        out.push((0x80 + (v / 0x40) % 0x40) as u8);
        out.push((0x80 + v % 0x40) as u8);
    } else {
        out.push((0xF0 + v / 0x40000) as u8);
        out.push((0x80 + (v / 0x1000) % 0x40) as u8);
        out.push((0x80 + (v / 0x40) % 0x40) as u8);
        out.push((0x80 + v % 0x40) as u8);
    }
    assert(out@ =~= old(out)@ + utf8_of(v as int));
}

/// Parses a string body, as `sp_str_body` describes.
pub fn parse_string_at(s: &Vec<u8>, i: usize) -> (r: Option<(Vec<u8>, usize)>)
    requires
        i <= s.len(),
    ensures
        match r {
            Some(p) => sp_str_body(s@, i as int) == Some((p.0@, p.1 as int)) && i < p.1 && p.1
                <= s.len(),
            None => sp_str_body(s@, i as int) is None,
        },
{
    let mut acc: Vec<u8> = Vec::new();
    let mut j: usize = i;
    while j < s.len() && s[j] != QUOTE
        invariant
            i <= j <= s.len(),
            sp_str_body(s@, j as int) matches Some(p) ==> sp_str_body(s@, i as int) == Some(
                ((acc@ + p.0), p.1),
            ),
            sp_str_body(s@, j as int) is None ==> sp_str_body(s@, i as int) is None,
        decreases s.len() - j,
    {
        let b = s[j];
        let ghost j0 = j as int;
        let ghost acc0 = acc@;
        if b == BSL {
            if j + 1 >= s.len() {
                return None;
            }
            let e = s[j + 1];
            if e == QUOTE || e == BSL || e == SLASH || e == 98 || e == 102 || e == 110 || e == 114
                || e == 116 {
                let m: u8 = if e == 98 {
                    8
                } else if e == 102 {
                    12
                } else if e == 110 {
                    10
                } else if e == 114 {
                    13
                } else if e == 116 {
                    9
                } else {
                    e
                };
                acc.push(m);
                j = j + 2;
                proof {
                    match sp_str_body(s@, j as int) {
                        Some(p) => {
                            assert(sp_str_body(s@, j0) == Some(
                                (seq![single_escape(s@[j0 + 1])] + p.0, p.1),
                            ));
                            assert(acc@ + p.0 =~= acc0 + (seq![single_escape(s@[j0 + 1])] + p.0));
                        },
                        None => {},
                    }
                }
            } else if e == LOW_U {
                if s.len() - j <= 5 {
                    return None;
                }
                let h1 = hex_val_exec(s[j + 2]);
                let h2 = hex_val_exec(s[j + 3]);
                let h3 = hex_val_exec(s[j + 4]);
                let h4 = hex_val_exec(s[j + 5]);
                if h1 == 255 || h2 == 255 || h3 == 255 || h4 == 255 {
                    return None;
                }
                let v: u32 = h1 as u32 * 4096 + h2 as u32 * 256 + h3 as u32 * 16 + h4 as u32;
                assert(v == hex4(s@, j0 + 2));
                if 0xD800 <= v && v <= 0xDBFF {
                    if s.len() - j <= 11 || s[j + 6] != BSL || s[j + 7] != LOW_U {
                        return None;
                    }
                    let g1 = hex_val_exec(s[j + 8]);
                    let g2 = hex_val_exec(s[j + 9]);
                    let g3 = hex_val_exec(s[j + 10]);
                    let g4 = hex_val_exec(s[j + 11]);
                    if g1 == 255 || g2 == 255 || g3 == 255 || g4 == 255 {
                        return None;
                    }
                    let w: u32 = g1 as u32 * 4096 + g2 as u32 * 256 + g3 as u32 * 16 + g4 as u32;
                    assert(w == hex4(s@, j0 + 8));
                    if !(0xDC00 <= w && w <= 0xDFFF) {
                        return None;
                    }
                    let cp: u32 = 0x10000 + (v - 0xD800) * 0x400 + (w - 0xDC00);
                    push_utf8(&mut acc, cp);
                    j = j + 12;
                    proof {
                        match sp_str_body(s@, j as int) {
                            Some(p) => {
                                assert(sp_str_body(s@, j0) == Some((utf8_of(cp as int) + p.0, p.1)));
                                assert(acc@ + p.0 =~= acc0 + (utf8_of(cp as int) + p.0));
                            },
                            None => {},
                        }
                    }
                } else if 0xDC00 <= v && v <= 0xDFFF {
                    return None;
                } else {
                    push_utf8(&mut acc, v);
                    j = j + 6;
                    proof {
                        match sp_str_body(s@, j as int) {
                            Some(p) => {
                                assert(sp_str_body(s@, j0) == Some((utf8_of(v as int) + p.0, p.1)));
                                assert(acc@ + p.0 =~= acc0 + (utf8_of(v as int) + p.0));
                            },
                            None => {},
                        }
                    }
                }
            } else {
                return None;
            }
        } else if b < 32 {
            return None;
        } else {
            acc.push(b);
            j = j + 1;
            proof {
                match sp_str_body(s@, j as int) {
                    Some(p) => {
                        assert(sp_str_body(s@, j0) == Some((seq![s@[j0]] + p.0, p.1)));
                        assert(acc@ + p.0 =~= acc0 + (seq![s@[j0]] + p.0));
                    },
                    None => {},
                }
            }
        }
    }
    if j >= s.len() {
        return None;
    }
    let e = j + 1;
    proof {
        assert(sp_str_body(s@, j as int) == Some((Seq::<u8>::empty(), j + 1)));
        assert(acc@ + Seq::<u8>::empty() =~= acc@);
    }
    Some((acc, e))
}

/// The escaped form of any content, delimited by the closing quote, parses
/// back to that content.
pub proof fn lemma_esc_inv(s: Seq<u8>, i: int, t: Seq<u8>)
    requires
        0 <= i,
        i + esc(t).len() + 1 <= s.len(),
        s.subrange(i, i + esc(t).len() as int) == esc(t),
        s[i + esc(t).len()] == QUOTE,
    ensures
        sp_str_body(s, i) == Some((t, i + esc(t).len() + 1)),
    decreases t.len(),
{
    let l = esc(t).len() as int;
    assert forall|k: int| 0 <= k < l implies s[i + k] == #[trigger] esc(t)[k] by {
        assert(s.subrange(i, i + l)[k] == esc(t)[k]);
    }
    if t.len() == 0 {
        assert(s[i + 0] == QUOTE);
    } else {
        let b = t[0];
        let rest = t.skip(1);
        let eb = esc_byte(b);
        let w = eb.len() as int;
        assert(esc(t) == eb + esc(rest));
        assert forall|k: int| 0 <= k < w implies s[i + k] == eb[k] by {
            assert(esc(t)[k] == eb[k]);
        }
        assert(s.subrange(i + w, i + l) =~= esc(rest)) by {
            assert forall|k: int| 0 <= k < l - w implies s.subrange(i + w, i + l)[k]
                == #[trigger] esc(rest)[k] by {
                assert(s[i + (w + k)] == esc(t)[w + k]);
                assert(esc(t)[w + k] == esc(rest)[k]);
            }
        }
        lemma_esc_inv(s, i + w, rest);
        assert(seq![b] + rest =~= t);
        if b == QUOTE {
            assert(s[i + 0] == BSL && s[i + 1] == QUOTE);
            assert(is_single_escape(s[i + 1]) && single_escape(s[i + 1]) == b);
        } else if b == BSL {
            assert(s[i + 0] == BSL && s[i + 1] == BSL);
            assert(is_single_escape(s[i + 1]) && single_escape(s[i + 1]) == b);
        } else if b < 32 {
            assert(s[i + 0] == BSL && s[i + 1] == LOW_U && s[i + 2] == D0 && s[i + 3] == D0);
            assert(s[i + 4] == hex_digit(b as int / 16) && s[i + 5] == hex_digit(b as int % 16));
            assert(!is_single_escape(s[i + 1]));
            assert(hex_val(D0) == 0);
            assert(hex_val(hex_digit(b as int / 16)) == b as int / 16);
            assert(hex_val(hex_digit(b as int % 16)) == b as int % 16);
            assert((b as int / 16) * 16 + b as int % 16 == b as int) by {
                vstd::arithmetic::div_mod::lemma_fundamental_div_mod(b as int, 16);
            }
            assert(hex4(s, i + 2) == b as int);
            assert(utf8_of(b as int) =~= seq![b]);
        } else {
            assert(s[i + 0] == b);
        }
    }
}

} // verus!
