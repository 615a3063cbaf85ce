//! Decimal number tokens: the 64-bit integer codec and the number grammar.
//!
//! The message document carries two kinds of numbers: contact identifiers,
//! which are 64-bit signed integers, and the timestamp, which is kept as its
//! decimal token.  This module defines the canonical decimal form of an
//! integer, a parser for it, and a recogniser for the full decimal number
//! grammar (optional sign, integer part, optional fraction and exponent),
//! together with the lemmas that make the codec round-trip provable.

use vstd::prelude::*;

verus! {

/// ASCII `-`.
pub const MINUS: u8 = 45;

/// ASCII `+`.
pub const PLUS: u8 = 43;

/// ASCII `.`.
pub const DOT: u8 = 46;

/// ASCII `0`.
pub const D0: u8 = 48;

/// ASCII `9`.
pub const D9: u8 = 57;

/// ASCII `e`.
pub const LOW_E: u8 = 101;

/// ASCII `E`.
pub const UP_E: u8 = 69;

/// `b` is an ASCII decimal digit.
pub open spec fn is_digit(b: u8) -> bool {
    D0 <= b && b <= D9
}

/// `b` may appear in a decimal number token.
pub open spec fn is_number_byte(b: u8) -> bool {
    is_digit(b) || b == MINUS || b == PLUS || b == DOT || b == LOW_E || b == UP_E
}

// ---------------------------------------------------------------------------
// The number grammar, as a state machine read left to right.
// ---------------------------------------------------------------------------

/// Progress through a decimal number token: sign, integer part, fraction,
/// exponent.  `Reject` is absorbing.
#[derive(PartialEq, Eq, Structural, Clone, Copy, Debug)]
pub enum NumState {
    Start,
    Minus,
    IntZero,
    IntDigits,
    Dot,
    Frac,
    Exp,
    ExpSign,
    ExpDigits,
    Reject,
}

/// One step of the number grammar.
pub open spec fn num_step(st: NumState, b: u8) -> NumState {
    match st {
        NumState::Start => if b == MINUS {
            NumState::Minus
        } else if b == D0 {
            NumState::IntZero
        } else if is_digit(b) {
            NumState::IntDigits
        } else {
            NumState::Reject
        },
        NumState::Minus => if b == D0 {
            NumState::IntZero
        } else if is_digit(b) {
            NumState::IntDigits
        } else {
            NumState::Reject
        },
        NumState::IntZero => if b == DOT {
            NumState::Dot
        } else if b == LOW_E || b == UP_E {
            NumState::Exp
        } else {
            NumState::Reject
        },
        NumState::IntDigits => if is_digit(b) {
            NumState::IntDigits
        } else if b == DOT {
            NumState::Dot
        } else if b == LOW_E || b == UP_E {
            NumState::Exp
        } else {
            NumState::Reject
        },
        NumState::Dot => if is_digit(b) {
            NumState::Frac
        } else {
            NumState::Reject
        },
        NumState::Frac => if is_digit(b) {
            NumState::Frac
        } else if b == LOW_E || b == UP_E {
            NumState::Exp
        } else {
            NumState::Reject
        },
        NumState::Exp => if b == PLUS || b == MINUS {
            NumState::ExpSign
        } else if is_digit(b) {
            NumState::ExpDigits
        } else {
            NumState::Reject
        },
        NumState::ExpSign => if is_digit(b) {
            NumState::ExpDigits
        } else {
            NumState::Reject
        },
        NumState::ExpDigits => if is_digit(b) {
            NumState::ExpDigits
        } else {
            NumState::Reject
        },
        NumState::Reject => NumState::Reject,
    }
}

/// The state after reading all of `s`.
pub open spec fn num_run(s: Seq<u8>) -> NumState
    decreases s.len(),
{
    if s.len() == 0 {
        NumState::Start
    } else {
        num_step(num_run(s.drop_last()), s.last())
    }
}

/// States in which a token may end.
pub open spec fn num_accepting(st: NumState) -> bool {
    st == NumState::IntZero || st == NumState::IntDigits || st == NumState::Frac || st
        == NumState::ExpDigits
}

/// `s` is a well-formed decimal number token.
pub open spec fn is_json_number(s: Seq<u8>) -> bool {
    num_accepting(num_run(s))
}

/// Same step, executable.
fn num_step_exec(st: NumState, b: u8) -> (r: NumState)
    ensures
        r == num_step(st, b),
{
    let digit = D0 <= b && b <= D9;
    match st {
        NumState::Start => if b == MINUS {
            NumState::Minus
        } else if b == D0 {
            NumState::IntZero
        } else if digit {
            NumState::IntDigits
        } else {
            NumState::Reject
        },
        NumState::Minus => if b == D0 {
            NumState::IntZero
        } else if digit {
            NumState::IntDigits
        } else {
            NumState::Reject
        },
        NumState::IntZero => if b == DOT {
            NumState::Dot
        } else if b == LOW_E || b == UP_E {
            NumState::Exp
        } else {
            NumState::Reject
        },
        NumState::IntDigits => if digit {
            NumState::IntDigits
        } else if b == DOT {
            NumState::Dot
        } else if b == LOW_E || b == UP_E {
            NumState::Exp
        } else {
            NumState::Reject
        },
        NumState::Dot => if digit {
            NumState::Frac
        } else {
            NumState::Reject
        },
        NumState::Frac => if digit {
            NumState::Frac
        } else if b == LOW_E || b == UP_E {
            NumState::Exp
        } else {
            NumState::Reject
        },
        NumState::Exp => if b == PLUS || b == MINUS {
            NumState::ExpSign
        } else if digit {
            NumState::ExpDigits
        } else {
            NumState::Reject
        },
        NumState::ExpSign => if digit {
            NumState::ExpDigits
        } else {
            NumState::Reject
        },
        NumState::ExpDigits => if digit {
            NumState::ExpDigits
        } else {
            NumState::Reject
        },
        NumState::Reject => NumState::Reject,
    }
}

/// Decides `is_json_number` on `s[from..to]`.
pub fn check_number_range(s: &Vec<u8>, from: usize, to: usize) -> (r: bool)
    requires
        from <= to && to <= s.len(),
    ensures
        r == is_json_number(s@.subrange(from as int, to as int)),
{
    let mut st = NumState::Start;
    let mut j: usize = from;
    assert(s@.subrange(from as int, from as int) =~= Seq::<u8>::empty());
    while j < to
        invariant
            from <= j && j <= to && to <= s.len(),
            st == num_run(s@.subrange(from as int, j as int)),
        decreases to - j,
    {
        let ghost prev = s@.subrange(from as int, j as int);
        st = num_step_exec(st, s[j]);
        j = j + 1;
        proof {
            let cur = s@.subrange(from as int, j as int);
            assert(cur.drop_last() =~= prev);
        }
    }
    matches!(st, NumState::IntZero | NumState::IntDigits | NumState::Frac | NumState::ExpDigits)
}

/// Decides `is_json_number` on the whole of `s`.
pub fn check_number(s: &Vec<u8>) -> (r: bool)
    ensures
        r == is_json_number(s@),
{
    let r = check_number_range(s, 0, s.len());
    proof {
        assert(s@.subrange(0, s.len() as int) =~= s@);
    }
    r
}

/// A step that leaves `Reject` read a number byte.
proof fn lemma_step_stays(st: NumState, b: u8)
    ensures
        num_step(st, b) != NumState::Reject ==> is_number_byte(b),
        num_step(NumState::Reject, b) == NumState::Reject,
{
}

/// A well-formed number token consists of number bytes alone.
pub proof fn lemma_number_bytes(s: Seq<u8>)
    requires
        is_json_number(s),
    ensures
        forall|k: int| 0 <= k < s.len() ==> is_number_byte(#[trigger] s[k]),
{
    lemma_run_bytes(s);
}

/// Any run that does not end in `Reject` read number bytes alone.
proof fn lemma_run_bytes(s: Seq<u8>)
    requires
        num_run(s) != NumState::Reject,
    ensures
        forall|k: int| 0 <= k < s.len() ==> is_number_byte(#[trigger] s[k]),
    decreases s.len(),
{
    if s.len() > 0 {
        lemma_step_stays(num_run(s.drop_last()), s.last());
        lemma_run_bytes(s.drop_last());
        assert forall|k: int| 0 <= k < s.len() implies is_number_byte(#[trigger] s[k]) by {
            if k < s.len() - 1 {
                assert(s[k] == s.drop_last()[k]);
            } else {
                assert(s[k] == s.last());
            }
        }
    }
}

// ---------------------------------------------------------------------------
// Decimal digits of an unsigned 64-bit value.
// ---------------------------------------------------------------------------

/// Canonical decimal digits of `n`, most significant first.
pub open spec fn dec_u64(n: nat) -> Seq<u8>
    decreases n,
{
    if n < 10 {
        seq![(D0 + n) as u8]
    } else {
        dec_u64(n / 10) + seq![(D0 + n % 10) as u8]
    }
}

/// Canonical decimal form of a signed value: a minus sign, then the digits of
/// the magnitude.
pub open spec fn spec_i64_bytes(v: int) -> Seq<u8> {
    if v < 0 {
        seq![MINUS] + dec_u64((-v) as nat)
    } else {
        dec_u64(v as nat)
    }
}

/// Shape of the canonical digits: non-empty, all digits, and no leading zero
/// unless the value is zero.
pub proof fn lemma_dec_u64_shape(n: nat)
    ensures
        dec_u64(n).len() >= 1,
        forall|k: int| 0 <= k < dec_u64(n).len() ==> is_digit(#[trigger] dec_u64(n)[k]),
        (dec_u64(n)[0] == D0) <==> (n == 0),
    decreases n,
{
    if n >= 10 {
        lemma_dec_u64_shape(n / 10);
        assert(forall|k: int|
            0 <= k < dec_u64(n).len() - 1 ==> #[trigger] dec_u64(n)[k] == dec_u64(n / 10)[k]);
    }
}

/// Appends the canonical digits of `n` to `out`.
pub fn push_u64_dec(out: &mut Vec<u8>, n: u64)
    ensures
        final(out)@ == old(out)@ + dec_u64(n as nat),
    decreases n,
{
    if n < 10 {
        out.push(D0 + n as u8);
        assert(out@ =~= old(out)@ + dec_u64(n as nat));
    } else {
        push_u64_dec(out, n / 10);
        out.push(D0 + (n % 10) as u8);
        assert(out@ =~= old(out)@ + dec_u64(n as nat));
    }
}

// ---------------------------------------------------------------------------
// Runs of digits and their value.
// ---------------------------------------------------------------------------

/// First position at or after `i` that does not hold a digit.
pub open spec fn digits_end(s: Seq<u8>, i: int) -> int
    decreases s.len() - i,
{
    if 0 <= i && i < s.len() && is_digit(s[i]) {
        digits_end(s, i + 1)
    } else {
        i
    }
}

/// The value of the digits `s[i..j]`, read as a decimal numeral.
pub open spec fn digits_val(s: Seq<u8>, i: int, j: int) -> int
    decreases j - i,
{
    if i >= j {
        0
    } else {
        digits_val(s, i, j - 1) * 10 + (s[j - 1] as int - 48)
    }
}

/// Powers of ten.
pub open spec fn pow10(k: int) -> int
    decreases k,
{
    if k <= 0 {
        1
    } else {
        10 * pow10(k - 1)
    }
}

proof fn lemma_pow10_mono(a: int, b: int)
    requires
        a <= b,
    ensures
        1 <= pow10(a) <= pow10(b),
    decreases b,
{
    if b > 0 {
        if a == b {
            lemma_pow10_mono(a - 1, b - 1);
        } else {
            lemma_pow10_mono(a, b - 1);
        }
    }
}

proof fn lemma_pow10_18_19()
    ensures
        pow10(18) == 0x0DE0_B6B3_A764_0000,
        pow10(19) == 0x8AC7_2304_89E8_0000,
{
    reveal_with_fuel(pow10, 21);
}

/// `digits_end` stays inside the sequence and delimits a run of digits.
pub proof fn lemma_digits_end_props(s: Seq<u8>, i: int)
    requires
        0 <= i <= s.len(),
    ensures
        i <= digits_end(s, i) <= s.len(),
        forall|k: int| i <= k < digits_end(s, i) ==> is_digit(#[trigger] s[k]),
        digits_end(s, i) < s.len() ==> !is_digit(s[digits_end(s, i)]),
    decreases s.len() - i,
{
    if i < s.len() && is_digit(s[i]) {
        lemma_digits_end_props(s, i + 1);
    }
}

/// A run of digits delimited on the right has that end.
pub proof fn lemma_digits_end_at(s: Seq<u8>, i: int, j: int)
    requires
        0 <= i <= j <= s.len(),
        forall|k: int| i <= k < j ==> is_digit(#[trigger] s[k]),
        j == s.len() || !is_digit(s[j]),
    ensures
        digits_end(s, i) == j,
    decreases j - i,
{
    if i < j {
        lemma_digits_end_at(s, i + 1, j);
    }
}

/// The value of a digit run is bounded by a power of ten.
pub proof fn lemma_digits_val_bounds(s: Seq<u8>, i: int, j: int)
    requires
        0 <= i <= j <= s.len(),
        forall|k: int| i <= k < j ==> is_digit(#[trigger] s[k]),
    ensures
        0 <= digits_val(s, i, j) < pow10(j - i),
    decreases j - i,
{
    if i < j {
        lemma_digits_val_bounds(s, i, j - 1);
        lemma_pow10_mono(0, j - 1 - i);
    }
}

/// Without a leading zero, the value of a digit run reaches the power of ten
/// below its width.
pub proof fn lemma_digits_val_lower(s: Seq<u8>, i: int, j: int)
    requires
        0 <= i < j <= s.len(),
        forall|k: int| i <= k < j ==> is_digit(#[trigger] s[k]),
        s[i] != D0,
    ensures
        digits_val(s, i, j) >= pow10(j - i - 1),
    decreases j - i,
{
    if i < j - 1 {
        lemma_digits_val_lower(s, i, j - 1);
    } else {
        assert(digits_val(s, i, i) == 0);
        assert(pow10(0) == 1);
    }
}

/// The digits written by `dec_u64` read back as the same value.
pub proof fn lemma_dec_u64_val(s: Seq<u8>, i: int, n: nat)
    requires
        0 <= i,
        i + dec_u64(n).len() <= s.len(),
        s.subrange(i, i + dec_u64(n).len() as int) == dec_u64(n),
    ensures
        digits_val(s, i, i + dec_u64(n).len() as int) == n,
    decreases n,
{
    let l = dec_u64(n).len() as int;
    assert(s[i + l - 1] == s.subrange(i, i + l)[l - 1]);
    if n < 10 {
        assert(digits_val(s, i, i) == 0);
        assert(s[i] == s.subrange(i, i + 1)[0]);
        assert(digits_val(s, i, i + 1) == s[i] as int - 48);
    } else {
        let pre = dec_u64((n / 10) as nat);
        let l1 = pre.len() as int;
        assert(l == l1 + 1 && dec_u64(n)[l - 1] == (D0 + n % 10) as u8);
        assert(s.subrange(i, i + l1) =~= pre) by {
            assert(forall|k: int|
                0 <= k < l1 ==> s.subrange(i, i + l)[k] == #[trigger] dec_u64(n)[k]);
        }
        lemma_dec_u64_val(s, i, (n / 10) as nat);
        assert(n % 10 < 10);
        assert(digits_val(s, i, i + l) == (n / 10) * 10 + (s[i + l - 1] as int - 48));
        assert((n / 10) * 10 + n % 10 == n) by {
            vstd::arithmetic::div_mod::lemma_fundamental_div_mod(n as int, 10);
        }
    }
}

// ---------------------------------------------------------------------------
// Signed 64-bit integers in decimal.
// ---------------------------------------------------------------------------

/// Parses a signed decimal integer at position `i`: an optional minus sign,
/// then digits without a leading zero, with a value that fits in 64 bits.
/// Returns the value and the position after the digits.
pub open spec fn sp_i64(s: Seq<u8>, i: int) -> Option<(int, int)> {
    if 0 <= i && i < s.len() {
        let neg = s[i] == MINUS;
        let d0 = if neg {
            i + 1
        } else {
            i
        };
        let j = digits_end(s, d0);
        if j == d0 {
            None
        } else if s[d0] == D0 && j > d0 + 1 {
            None
        } else {
            let mag = digits_val(s, d0, j);
            let v = if neg {
                -mag
            } else {
                mag
            };
            if i64::MIN <= v <= i64::MAX {
                Some((v, j))
            } else {
                None
            }
        }
    } else {
        None
    }
}

/// Position after the run of digits starting at `from`.
fn scan_digits(s: &Vec<u8>, from: usize) -> (j: usize)
    requires
        from <= s.len(),
    ensures
        j == digits_end(s@, from as int),
        from <= j <= s.len(),
{
    let mut j: usize = from;
    while j < s.len() && D0 <= s[j] && s[j] <= D9
        invariant
            from <= j <= s.len(),
            digits_end(s@, from as int) == digits_end(s@, j as int),
        decreases s.len() - j,
    {
        j = j + 1;
    }
    j
}

/// Parses a signed 64-bit decimal integer, as `sp_i64` describes.
pub fn parse_i64_at(s: &Vec<u8>, i: usize) -> (r: Option<(i64, usize)>)
    requires
        i <= s.len(),
    ensures
        match r {
            Some(p) => sp_i64(s@, i as int) == Some((p.0 as int, p.1 as int)) && i < p.1 <= s.len(),
            None => sp_i64(s@, i as int) is None,
        },
{
    if i >= s.len() {
        return None;
    }
    let neg = s[i] == MINUS;
    let d0: usize = if neg {
        i + 1
    } else {
        i
    };
    let j = scan_digits(s, d0);
    proof {
        lemma_digits_end_props(s@, d0 as int);
    }
    if j == d0 {
        return None;
    }
    if s[d0] == D0 && j > d0 + 1 {
        return None;
    }
    if j - d0 > 19 {
        proof {
            lemma_digits_val_lower(s@, d0 as int, j as int);
            lemma_pow10_mono(19, j - d0 - 1);
            lemma_pow10_18_19();
        }
        return None;
    }
    let mut val: u64 = 0;
    let mut k: usize = d0;
    while k < j
        invariant
            d0 <= k <= j <= s.len(),
            j - d0 <= 19,
            forall|t: int| d0 <= t < j ==> is_digit(#[trigger] s@[t]),
            val == digits_val(s@, d0 as int, k as int),
        decreases j - k,
    {
        proof {
            lemma_digits_val_bounds(s@, d0 as int, k as int);
            lemma_pow10_mono(k - d0, 18);
            lemma_pow10_18_19();
        }
        val = val * 10 + (s[k] - D0) as u64;
        k = k + 1;
    }
    if neg {
        if val > 9223372036854775808u64 {
            return None;
        }
        let v: i64 = if val == 9223372036854775808u64 {
            i64::MIN
        } else {
            -(val as i64)
        };
        Some((v, j))
    } else {
        if val > 9223372036854775807u64 {
            return None;
        }
        Some((val as i64, j))
    }
}

/// The canonical decimal form of a 64-bit value parses back to that value.
pub proof fn lemma_sp_i64_inv(s: Seq<u8>, i: int, v: int)
    requires
        i64::MIN <= v <= i64::MAX,
        0 <= i,
        i + spec_i64_bytes(v).len() <= s.len(),
        s.subrange(i, i + spec_i64_bytes(v).len() as int) == spec_i64_bytes(v),
        i + spec_i64_bytes(v).len() == s.len() || !is_digit(s[i + spec_i64_bytes(v).len()]),
    ensures
        sp_i64(s, i) == Some((v, i + spec_i64_bytes(v).len() as int)),
{
    let enc = spec_i64_bytes(v);
    let l = enc.len() as int;
    assert forall|k: int| 0 <= k < l implies s[i + k] == #[trigger] enc[k] by {
        assert(s.subrange(i, i + l)[k] == enc[k]);
    }
    if v >= 0 {
        let n = v as nat;
        lemma_dec_u64_shape(n);
        assert forall|k: int| i <= k < i + l implies is_digit(#[trigger] s[k]) by {
            assert(s[i + (k - i)] == enc[k - i]);
            assert(is_digit(dec_u64(n)[k - i]));
        }
        assert(s[i + 0] == enc[0]);
        assert(s[i] != MINUS);
        lemma_digits_end_at(s, i, i + l);
        lemma_dec_u64_val(s, i, n);
        if s[i] == D0 {
            assert(dec_u64(n)[0] == D0);
            assert(n == 0 && l == 1);
        }
    } else {
        let n = (-v) as nat;
        lemma_dec_u64_shape(n);
        assert(s[i + 0] == enc[0]);
        assert(s[i] == MINUS);
        assert(s.subrange(i + 1, i + l) =~= dec_u64(n)) by {
            assert forall|k: int| 0 <= k < l - 1 implies s.subrange(i + 1, i + l)[k]
                == #[trigger] dec_u64(n)[k] by {
                assert(s[i + (1 + k)] == enc[1 + k]);
            }
        }
        assert forall|k: int| i + 1 <= k < i + l implies is_digit(#[trigger] s[k]) by {
            assert(s[i + (k - i)] == enc[k - i]);
            assert(is_digit(dec_u64(n)[k - i - 1]));
        }
        lemma_digits_end_at(s, i + 1, i + l);
        lemma_dec_u64_val(s, i + 1, n);
        assert(s[i + 1] == enc[1]);
        assert(dec_u64(n)[0] != D0);
        assert(s[i + 1] != D0);
    }
}

// ---------------------------------------------------------------------------
// Number tokens.
// ---------------------------------------------------------------------------

/// First position at or after `i` that does not hold a number byte.
pub open spec fn number_end(s: Seq<u8>, i: int) -> int
    decreases s.len() - i,
{
    if 0 <= i && i < s.len() && is_number_byte(s[i]) {
        number_end(s, i + 1)
    } else {
        i
    }
}

/// Parses a decimal number token at position `i`: the maximal run of number
/// bytes, which must form a well-formed token.  Returns the token and the
/// position after it.
pub open spec fn sp_number(s: Seq<u8>, i: int) -> Option<(Seq<u8>, int)> {
    if 0 <= i <= s.len() {
        let j = number_end(s, i);
        let tok = s.subrange(i, j);
        if j > i && is_json_number(tok) {
            Some((tok, j))
        } else {
            None
        }
    } else {
        None
    }
}

/// A run of number bytes delimited on the right has that end.
pub proof fn lemma_number_end_at(s: Seq<u8>, i: int, j: int)
    requires
        0 <= i <= j <= s.len(),
        forall|k: int| i <= k < j ==> is_number_byte(#[trigger] s[k]),
        j == s.len() || !is_number_byte(s[j]),
    ensures
        number_end(s, i) == j,
    decreases j - i,
{
    if i < j {
        lemma_number_end_at(s, i + 1, j);
    }
}

/// Same byte class, executable.
fn is_number_byte_exec(b: u8) -> (r: bool)
    ensures
        r == is_number_byte(b),
{
    (D0 <= b && b <= D9) || b == MINUS || b == PLUS || b == DOT || b == LOW_E || b == UP_E
}

/// Parses a number token, as `sp_number` describes.  Returns the position
/// after the token; the token itself is `s[i..j]`.
pub fn parse_number_at(s: &Vec<u8>, i: usize) -> (r: Option<usize>)
    requires
        i <= s.len(),
    ensures
        match r {
            Some(j) => i < j <= s.len() && sp_number(s@, i as int) == Some(
                (s@.subrange(i as int, j as int), j as int),
            ),
            None => sp_number(s@, i as int) is None,
        },
{
    let mut j: usize = i;
    while j < s.len() && is_number_byte_exec(s[j])
        invariant
            i <= j <= s.len(),
            number_end(s@, i as int) == number_end(s@, j as int),
        decreases s.len() - j,
    {
        j = j + 1;
    }
    if j == i {
        return None;
    }
    if check_number_range(s, i, j) {
        Some(j)
    } else {
        None
    }
}

/// A well-formed number token delimited on the right parses back to itself.
pub proof fn lemma_sp_number_inv(s: Seq<u8>, i: int, t: Seq<u8>)
    requires
        is_json_number(t),
        0 <= i,
        i + t.len() <= s.len(),
        s.subrange(i, i + t.len() as int) == t,
        i + t.len() == s.len() || !is_number_byte(s[i + t.len()]),
    ensures
        sp_number(s, i) == Some((t, i + t.len() as int)),
{
    assert(t.len() >= 1);
    lemma_number_bytes(t);
    assert forall|k: int| i <= k < i + t.len() implies is_number_byte(#[trigger] s[k]) by {
        assert(s.subrange(i, i + t.len() as int)[k - i] == t[k - i]);
        assert(is_number_byte(t[k - i]));
    }
    lemma_number_end_at(s, i, i + t.len() as int);
}

/// Appends the canonical decimal form of `v` to `out`.
pub fn push_i64_dec(out: &mut Vec<u8>, v: i64)
    ensures
        final(out)@ == old(out)@ + spec_i64_bytes(v as int),
    decreases v,
{
    if v >= 0 {
        push_u64_dec(out, v as u64);
    } else {
        out.push(MINUS);
        let mag: u64 = if v == i64::MIN {
            9223372036854775808u64
        } else {
            (-v) as u64
        };
        assert(mag as int == -(v as int));
        push_u64_dec(out, mag);
        assert(out@ =~= old(out)@ + spec_i64_bytes(v as int));
    }
}

} // verus!
