//! Exact decimal numbers.
//!
//! A [`Dec`] holds the value `mant / 10^scale` as a pair of plain integers.
//! Every value the engine computes with is kept in canonical form: the
//! mantissa carries no trailing zero once `scale > 0`, and zero is always
//! `0 / 10^0`.  Canonical form makes structural equality coincide with
//! numeric equality, which the contracts in this crate rely on.

use vstd::prelude::*;
use crate::domain::json::{spec_parse_number, parse_number_exec};
use crate::domain::text::str_chars;

verus! {

/// Largest mantissa magnitude a well-formed decimal may carry (`10^33`).
pub const MANT_LIMIT: i128 = 1_000_000_000_000_000_000_000_000_000_000_000;

/// Largest mantissa magnitude accepted as an input to a conversion
/// (`10^18`); keeps every intermediate product inside an `i128`.
pub const INPUT_MANT_LIMIT: i128 = 1_000_000_000_000_000_000;

/// Largest scale (number of fractional digits) a well-formed decimal may carry.
pub const SCALE_LIMIT: u32 = 18;

/// An exact decimal number: the value `mant / 10^scale`.
#[derive(Clone, Copy, PartialEq, Eq, Structural, Debug)]
pub struct Dec {
    pub mant: i128,
    pub scale: u32,
}

/// `10^e` as a mathematical integer.
pub open spec fn pow10(e: nat) -> nat
    decreases e,
{
    if e == 0 {
        1
    } else {
        10 * pow10((e - 1) as nat)
    }
}

proof fn lemma_pow10_33()
    ensures
        pow10(33) == 0x314dc6448d9338c15b0a00000000 as nat,
{
    reveal_with_fuel(pow10, 34);
}

/// Powers of ten multiply by adding exponents.
pub proof fn lemma_pow10_adds(a: nat, b: nat)
    ensures
        pow10(a + b) == pow10(a) * pow10(b),
    decreases a,
{
    if a == 0 {
        assert(pow10(0 + b) == 1 * pow10(b));
    } else {
        let a1 = (a - 1) as nat;
        lemma_pow10_adds(a1, b);
        assert(a + b == (a1 + b) + 1);
        assert(pow10(a + b) == 10 * pow10(a1 + b));
        assert(pow10(a) == 10 * pow10(a1));
        assert(10 * (pow10(a1) * pow10(b)) == (10 * pow10(a1)) * pow10(b)) by (nonlinear_arith);
        assert(pow10(a + b) == 10 * (pow10(a1) * pow10(b)));
    }
}

/// The two mantissa limits are the powers of ten their names promise.
pub proof fn lemma_limits()
    ensures
        MANT_LIMIT == pow10(33),
        INPUT_MANT_LIMIT == pow10(18),
{
    reveal_with_fuel(pow10, 34);
}

pub proof fn lemma_pow10_positive(e: nat)
    ensures
        pow10(e) >= 1,
    decreases e,
{
    if e > 0 {
        lemma_pow10_positive((e - 1) as nat);
    }
}

pub proof fn lemma_pow10_monotone(a: nat, b: nat)
    requires
        a <= b,
    ensures
        pow10(a) <= pow10(b),
    decreases b,
{
    if a < b {
        lemma_pow10_monotone(a, (b - 1) as nat);
        lemma_pow10_positive((b - 1) as nat);
    }
}

/// `10^e` computed at run time; `10^33` still fits an `i128`.
pub fn pow10_i128(e: u32) -> (r: i128)
    requires
        e <= 33,
    ensures
        r == pow10(e as nat),
{
    let mut r: i128 = 1;
    let mut i: u32 = 0;
    proof {
        lemma_pow10_33();
    }
    while i < e
        invariant
            i <= e <= 33,
            r == pow10(i as nat),
            pow10(33) == 0x314dc6448d9338c15b0a00000000 as nat,
        decreases e - i,
    {
        proof {
            lemma_pow10_monotone((i + 1) as nat, 33);
        }
        r = r * 10;
        i = i + 1;
    }
    r
}

/// Canonical form: no trailing zero in the fraction, and zero has scale 0.
pub open spec fn canonical(d: Dec) -> bool {
    &&& (d.scale > 0 ==> d.mant % 10 != 0)
    &&& (d.mant == 0 ==> d.scale == 0)
}

/// A well-formed decimal: canonical and within the machine bounds this
/// crate computes under.
pub open spec fn dec_wf(d: Dec) -> bool {
    &&& canonical(d)
    &&& d.scale <= SCALE_LIMIT
    &&& -MANT_LIMIT <= d.mant <= MANT_LIMIT
}

/// A decimal small enough to be converted: every intermediate product of
/// the engine then fits the machine integers it computes with.
pub open spec fn dec_input_ok(d: Dec) -> bool {
    &&& dec_wf(d)
    &&& -INPUT_MANT_LIMIT <= d.mant <= INPUT_MANT_LIMIT
}

/// Canonicalisation of a non-negative magnitude `a / 10^s`: strip trailing
/// zeros from the fraction.
pub open spec fn spec_canon_abs(a: nat, s: nat) -> (nat, nat)
    decreases s,
{
    if s > 0 && a % 10 == 0 {
        spec_canon_abs(a / 10, (s - 1) as nat)
    } else {
        (a, s)
    }
}

/// The canonical decimal with the value `sign * a / 10^s`.
pub open spec fn spec_canon(neg: bool, a: nat, s: nat) -> Dec {
    let (ca, cs) = spec_canon_abs(a, s);
    Dec { mant: if neg { -(ca as int) as i128 } else { ca as i128 }, scale: cs as u32 }
}

/// Canonicalisation keeps the value: the stripped zeros come back as a
/// power of ten.
pub proof fn lemma_canon_abs_value(a: nat, s: nat)
    ensures
        spec_canon_abs(a, s).1 <= s,
        spec_canon_abs(a, s).0 * pow10((s - spec_canon_abs(a, s).1) as nat) == a,
    decreases s,
{
    let (ca, cs) = spec_canon_abs(a, s);
    if s > 0 && a % 10 == 0 {
        lemma_canon_abs_value(a / 10, (s - 1) as nat);
        assert((ca, cs) == spec_canon_abs(a / 10, (s - 1) as nat));
        assert(cs <= s - 1);
        let p1 = pow10((s - 1 - cs) as nat);
        assert(ca * p1 == a / 10);
        vstd::arithmetic::div_mod::lemma_fundamental_div_mod(a as int, 10);
        assert(a == 10 * (a / 10));
        assert(pow10((s - cs) as nat) == 10 * p1);
        assert(ca * (10 * p1) == 10 * (ca * p1)) by (nonlinear_arith);
        assert(ca * pow10((s - cs) as nat) == 10 * (a / 10));
    } else {
        assert(ca == a && cs == s);
        assert(pow10((s - cs) as nat) == 1);
    }
    assert(spec_canon_abs(a, s).0 == ca && spec_canon_abs(a, s).1 == cs);
    assert(ca * pow10((s - cs) as nat) == a);
}

proof fn lemma_canon_abs_canonical(a: nat, s: nat)
    ensures
        spec_canon_abs(a, s).1 > 0 ==> spec_canon_abs(a, s).0 % 10 != 0,
        spec_canon_abs(a, s).0 == 0 ==> spec_canon_abs(a, s).1 == 0,
        spec_canon_abs(a, s).0 <= a,
        spec_canon_abs(a, s).1 <= s,
    decreases s,
{
    if s > 0 && a % 10 == 0 {
        lemma_canon_abs_canonical(a / 10, (s - 1) as nat);
    }
}

/// A canonical decimal built from bounded parts is well formed.
pub proof fn lemma_spec_canon_wf(neg: bool, a: nat, s: nat)
    requires
        a <= MANT_LIMIT,
        s <= SCALE_LIMIT,
    ensures
        dec_wf(spec_canon(neg, a, s)),
        spec_canon(neg, a, s).scale <= s,
{
    lemma_canon_abs_canonical(a, s);
    lemma_canon_abs_value(a, s);
    let (ca, cs) = spec_canon_abs(a, s);
    lemma_pow10_positive((s - cs) as nat);
    assert(ca <= a) by (nonlinear_arith)
        requires
            ca * pow10((s - cs) as nat) == a,
            1 <= pow10((s - cs) as nat),
            0 <= ca,
    ;
}

/// Build the canonical decimal of value `sign * a / 10^s`.
pub fn canon(neg: bool, a: i128, s: u32) -> (d: Dec)
    requires
        0 <= a <= MANT_LIMIT,
        s <= SCALE_LIMIT,
    ensures
        d == spec_canon(neg, a as nat, s as nat),
        dec_wf(d),
        d.scale <= s,
{
    let ghost a0 = a as nat;
    let ghost s0 = s as nat;
    let mut a = a;
    let mut s = s;
    while s > 0 && a % 10 == 0
        invariant
            0 <= a <= MANT_LIMIT,
            s <= SCALE_LIMIT,
            s as nat <= s0,
            spec_canon_abs(a as nat, s as nat) == spec_canon_abs(a0, s0),
        decreases s,
    {
        a = a / 10;
        s = s - 1;
    }
    proof {
        lemma_canon_abs_canonical(a0, s0);
    }
    let mant = if a == 0 { 0 } else if neg { -a } else { a };
    Dec { mant, scale: s }
}

/// Division rounded to the nearest integer, ties away from zero.
///
/// This is the rounding the engine applies to every conversion result.
pub open spec fn spec_round_div(n: int, d: int) -> int
    recommends
        d > 0,
{
    if n >= 0 {
        (2 * n + d) / (2 * d)
    } else {
        -((2 * (-n) + d) / (2 * d))
    }
}

/// The rounded quotient differs from the exact quotient by at most half:
/// `|spec_round_div(n, d) - n / d| <= 1/2`, stated without fractions.
pub proof fn lemma_round_div_err(n: int, d: int)
    requires
        d > 0,
    ensures
        -d <= 2 * (spec_round_div(n, d) * d - n) <= d,
{
    if n >= 0 {
        let q = (2 * n + d) / (2 * d);
        vstd::arithmetic::div_mod::lemma_fundamental_div_mod(2 * n + d, 2 * d);
        let r = (2 * n + d) % (2 * d);
        vstd::arithmetic::div_mod::lemma_mod_bound(2 * n + d, 2 * d);
        assert(2 * n + d == 2 * d * q + r);
        assert(2 * (q * d - n) == d - r) by {
            assert(2 * (q * d) == 2 * d * q) by (nonlinear_arith);
        }
    } else {
        let m = -n;
        let q = (2 * m + d) / (2 * d);
        vstd::arithmetic::div_mod::lemma_fundamental_div_mod(2 * m + d, 2 * d);
        let r = (2 * m + d) % (2 * d);
        vstd::arithmetic::div_mod::lemma_mod_bound(2 * m + d, 2 * d);
        assert(2 * m + d == 2 * d * q + r);
        assert(2 * (q * d - m) == d - r) by {
            assert(2 * (q * d) == 2 * d * q) by (nonlinear_arith);
        }
        assert(spec_round_div(n, d) * d == -(q * d)) by (nonlinear_arith)
            requires
                spec_round_div(n, d) == -q,
        ;
    }
}

/// An exact quotient is returned unchanged by the rounding division.
pub proof fn lemma_round_div_exact(q: int, d: int)
    requires
        d > 0,
    ensures
        spec_round_div(q * d, d) == q,
{
    let n = q * d;
    if n >= 0 {
        assert(2 * n + d == 2 * d * q + d) by (nonlinear_arith)
            requires
                n == q * d,
        ;
        vstd::arithmetic::div_mod::lemma_fundamental_div_mod_converse(2 * n + d, 2 * d, q, d);
    } else {
        assert(2 * (-n) + d == 2 * d * (-q) + d) by (nonlinear_arith)
            requires
                n == q * d,
        ;
        vstd::arithmetic::div_mod::lemma_fundamental_div_mod_converse(2 * (-n) + d, 2 * d, -q, d);
    }
}

/// The rounded quotient is no larger in magnitude than the dividend plus one.
pub proof fn lemma_round_div_bound(n: int, d: int)
    requires
        d >= 1,
    ensures
        -((if n >= 0 {
            n
        } else {
            -n
        }) + 1) <= spec_round_div(n, d) <= (if n >= 0 {
            n
        } else {
            -n
        }) + 1,
{
    lemma_round_div_err(n, d);
    let r = spec_round_div(n, d);
    if n >= 0 {
        assert(r >= 0) by (nonlinear_arith)
            requires
                d >= 1,
                n >= 0,
                -d <= 2 * (r * d - n) <= d,
        ;
        assert(r <= n + 1) by (nonlinear_arith)
            requires
                d >= 1,
                n >= 0,
                r >= 0,
                -d <= 2 * (r * d - n) <= d,
        ;
    } else {
        assert(r <= 0) by (nonlinear_arith)
            requires
                d >= 1,
                n < 0,
                -d <= 2 * (r * d - n) <= d,
        ;
        assert(-n + 1 >= -r) by (nonlinear_arith)
            requires
                d >= 1,
                n < 0,
                r <= 0,
                -d <= 2 * (r * d - n) <= d,
        ;
    }
}

/// Run-time rounding division, ties away from zero.
pub fn round_div(n: i128, d: i128) -> (r: i128)
    requires
        1 <= d <= pow10(33),
        -(pow10(33) as int) <= n <= pow10(33),
    ensures
        r == spec_round_div(n as int, d as int),
{
    proof {
        lemma_pow10_33();
    }
    if n >= 0 {
        (2 * n + d) / (2 * d)
    } else {
        -((2 * (-n) + d) / (2 * d))
    }
}

/// Read a decimal value from caller-supplied text.
///
/// The whole text must be one plain decimal number — an optional minus
/// sign, digits, and an optional fraction — inside the input range the
/// engine accepts; anything else is `None`.
pub fn dec_from_input(s: &str) -> (r: Option<Dec>)
    ensures
        match spec_parse_number(s@, 0) {
            Some((d, j)) => if j == s@.len() && -INPUT_MANT_LIMIT <= d.mant <= INPUT_MANT_LIMIT {
                r == Some(d) && dec_input_ok(d)
            } else {
                r is None
            },
            None => r is None,
        },
{
    let v = str_chars(s);
    proof {
        if spec_parse_number(s@, 0) is Some {
            crate::domain::json::lemma_parse_number_bounds(s@, 0);
        }
    }
    match parse_number_exec(&v, 0) {
        None => None,
        Some((d, j)) => {
            if j != v.len() {
                None
            } else if d.mant > INPUT_MANT_LIMIT || d.mant < -INPUT_MANT_LIMIT {
                None
            } else {
                Some(d)
            }
        },
    }
}

/// The character for a single decimal digit.
pub open spec fn digit_char(d: nat) -> char {
    if d == 0 {
        '0'
    } else if d == 1 {
        '1'
    } else if d == 2 {
        '2'
    } else if d == 3 {
        '3'
    } else if d == 4 {
        '4'
    } else if d == 5 {
        '5'
    } else if d == 6 {
        '6'
    } else if d == 7 {
        '7'
    } else if d == 8 {
        '8'
    } else {
        '9'
    }
}

/// Whether a character is a decimal digit.
pub open spec fn is_digit_char(c: char) -> bool {
    '0' as u32 <= c as u32 <= '9' as u32
}

/// The numeric value of a digit character.
pub open spec fn digit_val(c: char) -> nat {
    (c as u32 - '0' as u32) as nat
}

/// The decimal digits of `n`, most significant first, with no leading zero
/// (a single `'0'` for zero itself).
pub open spec fn dec_digits(n: nat) -> Seq<char>
    decreases n,
{
    if n < 10 {
        seq![digit_char(n)]
    } else {
        dec_digits(n / 10).push(digit_char(n % 10))
    }
}

/// The last `w` decimal digits of `n`, zero padded to exactly `w` characters.
pub open spec fn dec_digits_pad(n: nat, w: nat) -> Seq<char>
    decreases w,
{
    if w == 0 {
        Seq::empty()
    } else {
        dec_digits_pad(n / 10, (w - 1) as nat).push(digit_char(n % 10))
    }
}

/// A digit's character is a digit character and reads back as the digit.
pub proof fn lemma_digit_char_props(d: nat)
    requires
        d < 10,
    ensures
        is_digit_char(digit_char(d)),
        digit_val(digit_char(d)) == d,
{
}

/// Digit strings are non-empty and consist of digit characters.
pub proof fn lemma_dec_digits_props(n: nat)
    ensures
        dec_digits(n).len() >= 1,
        forall|k: int| 0 <= k < dec_digits(n).len() ==> is_digit_char(#[trigger] dec_digits(n)[k]),
    decreases n,
{
    if n < 10 {
        lemma_digit_char_props(n);
    } else {
        lemma_dec_digits_props(n / 10);
        lemma_digit_char_props(n % 10);
    }
}

/// A value below `10^w` has at most `w` digits.
pub proof fn lemma_dec_digits_len_le(n: nat, w: nat)
    requires
        n < pow10(w),
        w >= 1,
    ensures
        dec_digits(n).len() <= w,
    decreases n,
{
    if n < 10 {
    } else {
        vstd::arithmetic::div_mod::lemma_fundamental_div_mod(n as int, 10);
        assert(pow10(w) == 10 * pow10((w - 1) as nat));
        assert(n / 10 < pow10((w - 1) as nat)) by (nonlinear_arith)
            requires
                n < 10 * pow10((w - 1) as nat),
                n == 10 * (n / 10) + n % 10,
                0 <= n % 10,
        ;
        assert(w - 1 >= 1) by {
            lemma_pow10_positive((w - 1) as nat);
            if w == 1 {
                assert(pow10(1nat) == 10);
            }
        }
        lemma_dec_digits_len_le(n / 10, (w - 1) as nat);
    }
}

/// Padded digit strings have exactly the asked width, all digits.
pub proof fn lemma_pad_props(n: nat, w: nat)
    ensures
        dec_digits_pad(n, w).len() == w,
        forall|k: int|
            0 <= k < w ==> is_digit_char(#[trigger] dec_digits_pad(n, w)[k]),
    decreases w,
{
    if w > 0 {
        lemma_pad_props(n / 10, (w - 1) as nat);
        lemma_digit_char_props(n % 10);
    }
}

/// Canonicalisation leaves an already canonical decimal unchanged.
pub proof fn lemma_canon_identity(d: Dec)
    requires
        dec_wf(d),
    ensures
        spec_canon(
            d.mant < 0,
            (if d.mant < 0 {
                -d.mant
            } else {
                d.mant as int
            }) as nat,
            d.scale as nat,
        ) == d,
{
    let a = (if d.mant < 0 {
        -d.mant
    } else {
        d.mant as int
    }) as nat;
    if d.scale > 0 {
        assert(a % 10 != 0) by {
            if d.mant < 0 && a % 10 == 0 {
                vstd::arithmetic::div_mod::lemma_fundamental_div_mod(a as int, 10);
                assert(d.mant == 10 * -((a as int) / 10));
                vstd::arithmetic::div_mod::lemma_fundamental_div_mod_converse(
                    d.mant as int,
                    10,
                    -((a as int) / 10),
                    0,
                );
            }
        }
    }
    assert(spec_canon_abs(a, d.scale as nat) == (a, d.scale as nat));
}
/// digits, and, when the scale is positive, a dot followed by exactly
/// `scale` fraction digits.
pub open spec fn spec_render_dec(d: Dec) -> Seq<char> {
    let a = (if d.mant < 0 {
        -d.mant
    } else {
        d.mant as int
    }) as nat;
    let sign: Seq<char> = if d.mant < 0 {
        seq!['-']
    } else {
        Seq::empty()
    };
    if d.scale == 0 {
        sign + dec_digits(a)
    } else {
        sign + dec_digits(a / pow10(d.scale as nat)) + seq!['.'] + dec_digits_pad(
            a % pow10(d.scale as nat),
            d.scale as nat,
        )
    }
}

/// The one-character string for a digit.
fn digit_str(d: u128) -> (s: &'static str)
    requires
        d < 10,
    ensures
        s@ == seq![digit_char(d as nat)],
{
    proof {
        reveal_strlit("0");
        reveal_strlit("1");
        reveal_strlit("2");
        reveal_strlit("3");
        reveal_strlit("4");
        reveal_strlit("5");
        reveal_strlit("6");
        reveal_strlit("7");
        reveal_strlit("8");
        reveal_strlit("9");
    }
    let s = if d == 0 {
        "0"
    } else if d == 1 {
        "1"
    } else if d == 2 {
        "2"
    } else if d == 3 {
        "3"
    } else if d == 4 {
        "4"
    } else if d == 5 {
        "5"
    } else if d == 6 {
        "6"
    } else if d == 7 {
        "7"
    } else if d == 8 {
        "8"
    } else {
        "9"
    };
    proof {
        assert(s@ =~= seq![digit_char(d as nat)]);
    }
    s
}

/// The decimal digits of `n` as a string.
pub(crate) fn digits_string(n: u128) -> (s: String)
    ensures
        s@ == dec_digits(n as nat),
    decreases n,
{
    if n < 10 {
        let mut s = String::new();
        s.append(digit_str(n));
        proof {
            assert(s@ =~= dec_digits(n as nat));
        }
        s
    } else {
        let mut s = digits_string(n / 10);
        s.append(digit_str(n % 10));
        proof {
            assert(s@ =~= dec_digits(n as nat));
        }
        s
    }
}

/// The last `w` digits of `n`, zero padded to width `w`, as a string.
fn digits_string_pad(n: u128, w: u32) -> (s: String)
    ensures
        s@ == dec_digits_pad(n as nat, w as nat),
    decreases w,
{
    if w == 0 {
        let s = String::new();
        proof {
            assert(s@ =~= dec_digits_pad(n as nat, 0));
        }
        s
    } else {
        let mut s = digits_string_pad(n / 10, w - 1);
        s.append(digit_str(n % 10));
        proof {
            assert(s@ =~= dec_digits_pad(n as nat, w as nat));
        }
        s
    }
}

/// Render a decimal in its natural form: no padding, no trailing zeros
/// beyond the stored scale, a leading `0` before a lone fraction.
pub fn dec_to_string(d: &Dec) -> (s: String)
    requires
        -MANT_LIMIT <= d.mant <= MANT_LIMIT,
        d.scale <= SCALE_LIMIT,
    ensures
        s@ == spec_render_dec(*d),
{
    let neg = d.mant < 0;
    let a: u128 = if neg {
        (-d.mant) as u128
    } else {
        d.mant as u128
    };
    let mut s = String::new();
    if neg {
        s.append("-");
        proof {
            reveal_strlit("-");
        }
    }
    if d.scale == 0 {
        let ds = digits_string(a);
        s.append(ds.as_str());
        proof {
            assert(s@ =~= spec_render_dec(*d));
        }
    } else {
        let p = pow10_i128(d.scale) as u128;
        proof {
            lemma_pow10_positive(d.scale as nat);
        }
        let ds = digits_string(a / p);
        s.append(ds.as_str());
        s.append(".");
        let fs = digits_string_pad(a % p, d.scale);
        s.append(fs.as_str());
        proof {
            reveal_strlit(".");
            assert(s@ =~= spec_render_dec(*d));
        }
    }
    s
}

} // verus!
