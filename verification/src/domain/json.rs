//! Token-level parsing for the history document.
//!
//! These are the building blocks of the lenient history parser: blank
//! space, fixed literals, JSON string tokens, and decimal number tokens.
//! Each parser exists twice, as a specification over `Seq<char>` and as
//! run-time code over `Vec<char>`, the latter proved equal to the former.

use vstd::prelude::*;
use crate::domain::num::{
    Dec, dec_wf, canon, spec_canon, pow10, pow10_i128, is_digit_char, digit_val, lemma_limits,
    lemma_pow10_adds, lemma_pow10_monotone, lemma_pow10_positive, lemma_spec_canon_wf, MANT_LIMIT, SCALE_LIMIT,
};
use crate::domain::num::{
    dec_digits, dec_digits_pad, digit_char, spec_render_dec, lemma_canon_identity,
    lemma_dec_digits_len_le, lemma_dec_digits_props, lemma_digit_char_props, lemma_pad_props,
};
use crate::domain::records::{esc_char, spec_escape};
use crate::domain::text::{lemma_contains_char_at, lemma_contains_split, push_char, seq_contains_at};

verus! {

/// Blank space between tokens.
pub open spec fn is_ws(c: char) -> bool {
    c == ' ' || c == '\n' || c == '\r' || c == '\t'
}

/// The position of the first non-blank character at or after `i`.
pub open spec fn ws_end(s: Seq<char>, i: int) -> int
    recommends
        0 <= i <= s.len(),
    decreases s.len() - i,
{
    if 0 <= i && i < s.len() && is_ws(s[i]) {
        ws_end(s, i + 1)
    } else {
        i
    }
}

/// Skipping blank space stays inside the text.
pub proof fn lemma_ws_end_bounds(s: Seq<char>, i: int)
    requires
        0 <= i <= s.len(),
    ensures
        i <= ws_end(s, i) <= s.len(),
    decreases s.len() - i,
{
    if i < s.len() && is_ws(s[i]) {
        lemma_ws_end_bounds(s, i + 1);
    }
}

/// Skipping blank space ends exactly at the first non-blank position.
pub proof fn lemma_ws_end_at(s: Seq<char>, i: int, j: int)
    requires
        0 <= i <= j <= s.len(),
        forall|k: int| i <= k < j ==> is_ws(#[trigger] s[k]),
        j == s.len() || !is_ws(s[j]),
    ensures
        ws_end(s, i) == j,
    decreases j - i,
{
    if i < j {
        lemma_ws_end_at(s, i + 1, j);
    }
}

/// An expected literal at position `i`: the position after it, or `None`.
pub open spec fn spec_parse_lit(s: Seq<char>, i: int, lit: Seq<char>) -> Option<int> {
    if 0 <= i && i + lit.len() <= s.len() && s.subrange(i, i + lit.len()) == lit {
        Some(i + lit.len())
    } else {
        None
    }
}

/// What a backslash escape stands for; `None` for an escape the codec
/// does not know.
pub open spec fn unesc_char(c: char) -> Option<char> {
    if c == '"' {
        Some('"')
    } else if c == '\\' {
        Some('\\')
    } else if c == 'n' {
        Some('\n')
    } else if c == 'r' {
        Some('\r')
    } else if c == 't' {
        Some('\t')
    } else {
        None
    }
}

/// The content of a JSON string after its opening quote: the unescaped
/// characters and the position after the closing quote.
pub open spec fn spec_parse_strchars(s: Seq<char>, i: int) -> Option<(Seq<char>, int)>
    recommends
        0 <= i <= s.len(),
    decreases s.len() - i,
{
    if i < 0 || i >= s.len() {
        None
    } else if s[i] == '"' {
        Some((Seq::empty(), i + 1))
    } else if s[i] == '\\' {
        if i + 1 < s.len() && unesc_char(s[i + 1]) is Some {
            match spec_parse_strchars(s, i + 2) {
                Some((t, j)) => Some((seq![unesc_char(s[i + 1])->0] + t, j)),
                None => None,
            }
        } else {
            None
        }
    } else {
        match spec_parse_strchars(s, i + 1) {
            Some((t, j)) => Some((seq![s[i]] + t, j)),
            None => None,
        }
    }
}

/// A whole JSON string token at position `i`.
pub open spec fn spec_parse_json_string(s: Seq<char>, i: int) -> Option<(Seq<char>, int)> {
    if 0 <= i && i < s.len() && s[i] == '"' {
        spec_parse_strchars(s, i + 1)
    } else {
        None
    }
}

/// A parsed string ends strictly after where it began.
pub proof fn lemma_parse_strchars_bounds(s: Seq<char>, i: int)
    requires
        spec_parse_strchars(s, i) is Some,
    ensures
        i < (spec_parse_strchars(s, i)->0).1 <= s.len(),
    decreases s.len() - i,
{
    if s[i] == '"' {
    } else if s[i] == '\\' {
        lemma_parse_strchars_bounds(s, i + 2);
    } else {
        lemma_parse_strchars_bounds(s, i + 1);
    }
}

/// The position of the first non-digit character at or after `i`.
pub open spec fn digit_run_end(s: Seq<char>, i: int) -> int
    recommends
        0 <= i <= s.len(),
    decreases s.len() - i,
{
    if 0 <= i && i < s.len() && is_digit_char(s[i]) {
        digit_run_end(s, i + 1)
    } else {
        i
    }
}

/// A digit run stays inside the text.
pub proof fn lemma_digit_run_bounds(s: Seq<char>, i: int)
    requires
        0 <= i <= s.len(),
    ensures
        i <= digit_run_end(s, i) <= s.len(),
        forall|k: int| i <= k < digit_run_end(s, i) ==> is_digit_char(#[trigger] s[k]),
    decreases s.len() - i,
{
    if i < s.len() && is_digit_char(s[i]) {
        lemma_digit_run_bounds(s, i + 1);
    }
}

/// A digit run ends exactly at the first non-digit position.
pub proof fn lemma_digit_run_at(s: Seq<char>, i: int, j: int)
    requires
        0 <= i <= j <= s.len(),
        forall|k: int| i <= k < j ==> is_digit_char(#[trigger] s[k]),
        j == s.len() || !is_digit_char(s[j]),
    ensures
        digit_run_end(s, i) == j,
    decreases j - i,
{
    if i < j {
        lemma_digit_run_at(s, i + 1, j);
    }
}

/// The value of the digits `s[i..j)`.
pub open spec fn digits_value_range(s: Seq<char>, i: int, j: int) -> nat
    decreases j - i,
{
    if j <= i {
        0
    } else {
        digits_value_range(s, i, j - 1) * 10 + digit_val(s[j - 1])
    }
}

/// A decimal number token at position `i`: an optional minus sign, the
/// integer digits, and an optional dot followed by fraction digits.
/// Rejects numbers beyond the well-formed bounds; the value is returned
/// canonicalised.
pub open spec fn spec_parse_number(s: Seq<char>, i: int) -> Option<(Dec, int)> {
    if i < 0 || i >= s.len() {
        None
    } else {
        let neg = s[i] == '-';
        let i0 = if neg {
            i + 1
        } else {
            i
        };
        let j = digit_run_end(s, i0);
        if j == i0 || j - i0 > 34 {
            None
        } else {
            let ip = digits_value_range(s, i0, j);
            if j + 1 < s.len() && s[j] == '.' && is_digit_char(s[j + 1]) {
                let k = digit_run_end(s, j + 1);
                let f = (k - j - 1) as nat;
                if f > SCALE_LIMIT {
                    None
                } else {
                    let mant0 = ip * pow10(f) + digits_value_range(s, j + 1, k);
                    if mant0 > MANT_LIMIT {
                        None
                    } else {
                        Some((spec_canon(neg, mant0, f), k))
                    }
                }
            } else {
                if ip > MANT_LIMIT {
                    None
                } else {
                    Some((spec_canon(neg, ip, 0), j))
                }
            }
        }
    }
}

/// A parsed number is well formed and ends strictly after where it began.
pub proof fn lemma_parse_number_bounds(s: Seq<char>, i: int)
    requires
        0 <= i <= s.len(),
        spec_parse_number(s, i) is Some,
    ensures
        i < (spec_parse_number(s, i)->0).1 <= s.len(),
        dec_wf((spec_parse_number(s, i)->0).0),
{
    let neg = s[i] == '-';
    let i0 = if neg {
        i + 1
    } else {
        i
    };
    lemma_digit_run_bounds(s, i0);
    let j = digit_run_end(s, i0);
    let ip = digits_value_range(s, i0, j);
    if j + 1 < s.len() && s[j] == '.' && is_digit_char(s[j + 1]) {
        lemma_digit_run_bounds(s, j + 1);
        let k = digit_run_end(s, j + 1);
        let f = (k - j - 1) as nat;
        if f <= SCALE_LIMIT {
            let mant0 = ip * pow10(f) + digits_value_range(s, j + 1, k);
            if mant0 <= MANT_LIMIT {
                lemma_spec_canon_wf(neg, mant0, f);
            }
        }
    } else {
        if ip <= MANT_LIMIT {
            lemma_spec_canon_wf(neg, ip, 0);
        }
    }
}

fn is_ws_exec(c: char) -> (b: bool)
    ensures
        b == is_ws(c),
{
    c == ' ' || c == '\n' || c == '\r' || c == '\t'
}

fn is_digit_exec(c: char) -> (b: bool)
    ensures
        b == is_digit_char(c),
{
    let u = c as u32;
    48 <= u && u <= 57
}

fn unesc_exec(c: char) -> (r: Option<char>)
    ensures
        r == unesc_char(c),
{
    if c == '"' {
        Some('"')
    } else if c == '\\' {
        Some('\\')
    } else if c == 'n' {
        Some('\n')
    } else if c == 'r' {
        Some('\r')
    } else if c == 't' {
        Some('\t')
    } else {
        None
    }
}

/// Skip blank space.
pub fn ws_end_exec(v: &Vec<char>, i: usize) -> (j: usize)
    requires
        i <= v@.len(),
    ensures
        j as int == ws_end(v@, i as int),
        i <= j <= v@.len(),
{
    let mut j = i;
    loop
        invariant
            i <= j <= v@.len(),
            ws_end(v@, i as int) == ws_end(v@, j as int),
        decreases v@.len() - j,
    {
        if j < v.len() && is_ws_exec(v[j]) {
            j = j + 1;
        } else {
            return j;
        }
    }
}

/// Skip decimal digits.
fn digit_run_end_exec(v: &Vec<char>, i: usize) -> (j: usize)
    requires
        i <= v@.len(),
    ensures
        j as int == digit_run_end(v@, i as int),
        i <= j <= v@.len(),
{
    let mut j = i;
    loop
        invariant
            i <= j <= v@.len(),
            digit_run_end(v@, i as int) == digit_run_end(v@, j as int),
        decreases v@.len() - j,
    {
        if j < v.len() && is_digit_exec(v[j]) {
            j = j + 1;
        } else {
            return j;
        }
    }
}

/// Expect the literal `lit` at position `i`.
pub fn parse_lit_exec(v: &Vec<char>, i: usize, lit: &str) -> (r: Option<usize>)
    requires
        i <= v@.len(),
    ensures
        match spec_parse_lit(v@, i as int, lit@) {
            Some(j) => r matches Some(p) && p as int == j && i <= p <= v@.len(),
            None => r is None,
        },
{
    let n = lit.unicode_len();
    let vlen = v.len();
    if n > vlen - i {
        proof {
            assert(spec_parse_lit(v@, i as int, lit@) is None);
        }
        return None;
    }
    let mut k: usize = 0;
    while k < n
        invariant
            i + n <= vlen,
            vlen == v@.len(),
            n == lit@.len(),
            k <= n,
            forall|t: int| 0 <= t < k ==> v@[i + t] == lit@[t],
        decreases n - k,
    {
        if v[i + k] != lit.get_char(k) {
            proof {
                assert(v@.subrange(i as int, i + n) != lit@) by {
                    assert(v@.subrange(i as int, i + n)[k as int] == v@[i + k]);
                }
            }
            return None;
        }
        k = k + 1;
    }
    proof {
        assert(v@.subrange(i as int, i + n) =~= lit@);
    }
    Some(i + n)
}

/// Parse a JSON string token at position `i`.
pub fn parse_json_string_exec(v: &Vec<char>, i: usize) -> (r: Option<(String, usize)>)
    requires
        i <= v@.len(),
    ensures
        match spec_parse_json_string(v@, i as int) {
            Some((t, j)) => r matches Some(p) && p.0@ == t && p.1 as int == j && i < p.1
                <= v@.len(),
            None => r is None,
        },
{
    if i >= v.len() || v[i] != '"' {
        return None;
    }
    proof {
        if spec_parse_strchars(v@, (i + 1) as int) is Some {
            lemma_parse_strchars_bounds(v@, i + 1);
        }
    }
    let mut acc = String::new();
    let mut cur: usize = i + 1;
    loop
        invariant
            i + 1 <= cur <= v@.len(),
            v@[i as int] == '"',
            spec_parse_strchars(v@, (i + 1) as int) == (match spec_parse_strchars(
                v@,
                cur as int,
            ) {
                Some((t, j)) => Some((acc@ + t, j)),
                None => None::<(Seq<char>, int)>,
            }),
        decreases v@.len() - cur,
    {
        if cur >= v.len() {
            return None;
        }
        let c = v[cur];
        if c == '"' {
            proof {
                assert(acc@ + Seq::<char>::empty() =~= acc@);
                assert(cur < v@.len() && v@[cur as int] == '"');
                assert(spec_parse_strchars(v@, cur as int) == Some(
                    (Seq::<char>::empty(), (cur + 1) as int),
                ));
                assert(spec_parse_strchars(v@, (i + 1) as int) == Some(
                    (acc@, (cur + 1) as int),
                ));
                assert(spec_parse_json_string(v@, i as int) == Some((acc@, (cur + 1) as int)));
            }
            return Some((acc, cur + 1));
        } else if c == '\\' {
            if cur + 1 >= v.len() {
                return None;
            }
            let u = unesc_exec(v[cur + 1]);
            match u {
                None => {
                    return None;
                },
                Some(uc) => {
                    proof {
                        if spec_parse_strchars(v@, (cur + 2) as int) is Some {
                            let (t, j) = spec_parse_strchars(v@, (cur + 2) as int)->0;
                            assert(acc@.push(uc) + t =~= acc@ + (seq![uc] + t));
                            lemma_parse_strchars_bounds(v@, cur + 2);
                        }
                    }
                    push_char(&mut acc, uc);
                    cur = cur + 2;
                },
            }
        } else {
            proof {
                if spec_parse_strchars(v@, (cur + 1) as int) is Some {
                    let (t, j) = spec_parse_strchars(v@, (cur + 1) as int)->0;
                    assert(acc@.push(c) + t =~= acc@ + (seq![c] + t));
                    lemma_parse_strchars_bounds(v@, cur + 1);
                }
            }
            push_char(&mut acc, c);
            cur = cur + 1;
        }
    }
}

/// Every digit is worth at most nine: the value of a run is bounded by a
/// power of ten.
proof fn lemma_digits_value_bound(s: Seq<char>, i: int, j: int)
    requires
        0 <= i <= j <= s.len(),
        forall|k: int| i <= k < j ==> is_digit_char(#[trigger] s[k]),
    ensures
        digits_value_range(s, i, j) < pow10((j - i) as nat),
    decreases j - i,
{
    if j <= i {
    } else {
        lemma_digits_value_bound(s, i, j - 1);
        assert(digit_val(s[j - 1]) <= 9);
        let prev = digits_value_range(s, i, j - 1);
        assert(prev * 10 + 9 < pow10((j - i) as nat)) by (nonlinear_arith)
            requires
                prev < pow10((j - i - 1) as nat),
                pow10((j - i) as nat) == 10 * pow10((j - i - 1) as nat),
        ;
    }
}

/// Accumulate the value of the digits `v[i..j)`.
fn digits_value_exec(v: &Vec<char>, i: usize, j: usize) -> (val: u128)
    requires
        i <= j <= v@.len(),
        j - i <= 34,
        forall|k: int| i <= k < j ==> is_digit_char(#[trigger] v@[k]),
    ensures
        val == digits_value_range(v@, i as int, j as int),
        val < pow10((j - i) as nat),
{
    proof {
        lemma_limits();
        assert(pow10(34) == 10 * pow10(33));
        lemma_digits_value_bound(v@, i as int, j as int);
    }
    let mut val: u128 = 0;
    let mut cur = i;
    while cur < j
        invariant
            i <= cur <= j <= v@.len(),
            j - i <= 34,
            forall|k: int| i <= k < j ==> is_digit_char(#[trigger] v@[k]),
            val == digits_value_range(v@, i as int, cur as int),
            pow10(34) == 10 * 1000000000000000000000000000000000,
        decreases j - cur,
    {
        proof {
            lemma_digits_value_bound(v@, i as int, cur as int);
            lemma_pow10_monotone((cur - i) as nat, 34);
        }
        let d = (v[cur] as u32 - 48) as u128;
        val = val * 10 + d;
        cur = cur + 1;
    }
    proof {
        lemma_digits_value_bound(v@, i as int, j as int);
    }
    val
}

/// Parse a decimal number token at position `i`.
pub fn parse_number_exec(v: &Vec<char>, i: usize) -> (r: Option<(Dec, usize)>)
    requires
        i <= v@.len(),
    ensures
        match spec_parse_number(v@, i as int) {
            Some((d, j)) => r matches Some(p) && p.0 == d && p.1 as int == j && i < p.1
                <= v@.len(),
            None => r is None,
        },
{
    proof {
        lemma_limits();
        if spec_parse_number(v@, i as int) is Some {
            lemma_parse_number_bounds(v@, i as int);
        }
    }
    if i >= v.len() {
        return None;
    }
    let neg = v[i] == '-';
    let i0 = if neg {
        i + 1
    } else {
        i
    };
    let j = digit_run_end_exec(v, i0);
    if j == i0 || j - i0 > 34 {
        return None;
    }
    proof {
        lemma_digit_run_bounds(v@, i0 as int);
    }
    let ip = digits_value_exec(v, i0, j);
    if j < v.len() && v[j] == '.' && j + 1 < v.len() && is_digit_exec(v[j + 1]) {
        let k = digit_run_end_exec(v, j + 1);
        proof {
            lemma_digit_run_bounds(v@, (j + 1) as int);
        }
        let f = k - j - 1;
        if f > 18 {
            return None;
        }
        let fp = digits_value_exec(v, j + 1, k);
        let threshold = pow10_i128(33 - (f as u32)) as u128;
        proof {
            lemma_pow10_adds((33 - f) as nat, f as nat);
            lemma_pow10_positive(f as nat);
        }
        if ip > threshold {
            proof {
                let pf = pow10(f as nat) as int;
                assert(ip * pf >= (threshold + 1) * pf) by (nonlinear_arith)
                    requires
                        ip >= threshold + 1,
                        pf >= 1,
                ;
                assert((threshold + 1) * pf == threshold * pf + pf) by (nonlinear_arith);
                assert(ip * pow10(f as nat) + digits_value_range(v@, (j + 1) as int, k as int)
                    > MANT_LIMIT);
            }
            return None;
        }
        let pf = pow10_i128(f as u32) as u128;
        proof {
            assert(ip * pf <= threshold * pf) by (nonlinear_arith)
                requires
                    ip <= threshold,
                    0 <= ip,
                    1 <= pf,
            ;
            lemma_pow10_monotone(f as nat, 18);
        }
        let mant0 = ip * pf + fp;
        if mant0 > 1000000000000000000000000000000000 {
            return None;
        }
        let d = canon(neg, mant0 as i128, f as u32);
        Some((d, k))
    } else {
        if ip > 1000000000000000000000000000000000 {
            return None;
        }
        let d = canon(neg, ip as i128, 0);
        Some((d, j))
    }
}

/// A literal that stands in the text parses to the position after it.
pub proof fn lemma_parse_lit_at(s: Seq<char>, i: int, lit: Seq<char>)
    requires
        seq_contains_at(s, lit, i),
    ensures
        spec_parse_lit(s, i, lit) == Some(i + lit.len()),
{
}

/// A literal whose first character does not match fails to parse.
pub proof fn lemma_parse_lit_mismatch(s: Seq<char>, i: int, lit: Seq<char>)
    requires
        lit.len() >= 1,
        0 <= i < s.len(),
        s[i] != lit[0],
    ensures
        spec_parse_lit(s, i, lit) is None,
{
    if 0 <= i && i + lit.len() <= s.len() && s.subrange(i, i + lit.len()) == lit {
        assert(s.subrange(i, i + lit.len())[0] == s[i]);
    }
}

/// Parsing reads back exactly what escaping wrote: the string content
/// between the opening quote and the closing quote round-trips.
pub proof fn lemma_parse_strchars_round(s: Seq<char>, i: int, t: Seq<char>)
    requires
        0 <= i,
        seq_contains_at(s, spec_escape(t) + seq!['"'], i),
    ensures
        spec_parse_strchars(s, i) == Some((t, i + spec_escape(t).len() + 1)),
    decreases t.len(),
{
    let e = spec_escape(t);
    if t.len() == 0 {
        assert((e + seq!['"'])[0] == '"');
        lemma_contains_char_at(s, e + seq!['"'], i, 0);
        assert(s[i] == '"');
    } else {
        let c = t.first();
        let e1 = spec_escape(t.drop_first());
        assert(e == esc_char(c) + e1);
        assert(e + seq!['"'] =~= esc_char(c) + (e1 + seq!['"']));
        lemma_contains_split(s, esc_char(c), e1 + seq!['"'], i);
        assert(seq![c] + t.drop_first() =~= t);
        if c == '"' || c == '\\' || c == '\n' || c == '\r' || c == '\t' {
            assert(esc_char(c).len() == 2);
            assert(esc_char(c)[0] == '\\');
            lemma_contains_char_at(s, esc_char(c), i, 0);
            lemma_contains_char_at(s, esc_char(c), i, 1);
            assert(s[i] == '\\');
            assert(unesc_char(s[i + 1]) == Some(c));
            lemma_parse_strchars_round(s, i + 2, t.drop_first());
        } else {
            assert(esc_char(c) =~= seq![c]);
            lemma_contains_char_at(s, esc_char(c), i, 0);
            assert(s[i] == c);
            lemma_parse_strchars_round(s, i + 1, t.drop_first());
        }
    }
}

/// A JSON string token round-trips.
pub proof fn lemma_parse_json_string_round(s: Seq<char>, i: int, t: Seq<char>)
    requires
        0 <= i,
        seq_contains_at(s, seq!['"'] + spec_escape(t) + seq!['"'], i),
    ensures
        spec_parse_json_string(s, i) == Some((t, i + spec_escape(t).len() + 2)),
{
    assert(seq!['"'] + spec_escape(t) + seq!['"'] =~= seq!['"'] + (spec_escape(t) + seq!['"']));
    lemma_contains_split(s, seq!['"'], spec_escape(t) + seq!['"'], i);
    lemma_contains_char_at(s, seq!['"'], i, 0);
    assert(s[i] == '"');
    lemma_parse_strchars_round(s, i + 1, t);
}

/// Digit text written by the renderer reads back as the same value.
proof fn lemma_digits_value_at(s: Seq<char>, i: int, n: nat)
    requires
        0 <= i,
        seq_contains_at(s, dec_digits(n), i),
    ensures
        digits_value_range(s, i, i + dec_digits(n).len()) == n,
    decreases n,
{
    if n < 10 {
        lemma_digit_char_props(n);
        assert(dec_digits(n)[0] == digit_char(n));
        lemma_contains_char_at(s, dec_digits(n), i, 0);
        assert(s[i] == digit_char(n));
        assert(digits_value_range(s, i, i) == 0);
        assert(digits_value_range(s, i, i + 1) == digits_value_range(s, i, i) * 10 + digit_val(
            s[i],
        ));
    } else {
        let prefix = dec_digits(n / 10);
        let c = digit_char(n % 10);
        assert(dec_digits(n) =~= prefix + seq![c]);
        lemma_contains_split(s, prefix, seq![c], i);
        lemma_digits_value_at(s, i, n / 10);
        lemma_contains_char_at(s, seq![c], i + prefix.len(), 0);
        assert(s[i + prefix.len()] == c);
        lemma_digit_char_props(n % 10);
        assert(digit_val(c) == n % 10);
        vstd::arithmetic::div_mod::lemma_fundamental_div_mod(n as int, 10);
        let j = i + dec_digits(n).len();
        assert(j - 1 == i + prefix.len());
        assert(digits_value_range(s, i, j) == digits_value_range(s, i, j - 1) * 10 + digit_val(
            s[j - 1],
        ));
    }
}

/// Padded digit text reads back as the same value.
proof fn lemma_digits_value_pad_at(s: Seq<char>, i: int, n: nat, w: nat)
    requires
        0 <= i,
        n < pow10(w),
        seq_contains_at(s, dec_digits_pad(n, w), i),
    ensures
        digits_value_range(s, i, i + w) == n,
    decreases w,
{
    lemma_pad_props(n, w);
    if w == 0 {
        assert(pow10(0) == 1);
    } else {
        let prefix = dec_digits_pad(n / 10, (w - 1) as nat);
        let c = digit_char(n % 10);
        lemma_pad_props(n / 10, (w - 1) as nat);
        assert(dec_digits_pad(n, w) =~= prefix + seq![c]);
        lemma_contains_split(s, prefix, seq![c], i);
        vstd::arithmetic::div_mod::lemma_fundamental_div_mod(n as int, 10);
        assert(pow10(w) == 10 * pow10((w - 1) as nat));
        assert(n / 10 < pow10((w - 1) as nat)) by (nonlinear_arith)
            requires
                n < 10 * pow10((w - 1) as nat),
                n == 10 * (n / 10) + n % 10,
                0 <= n % 10,
        ;
        lemma_digits_value_pad_at(s, i, n / 10, (w - 1) as nat);
        lemma_contains_char_at(s, seq![c], i + prefix.len(), 0);
        assert(s[i + w - 1] == c);
        lemma_digit_char_props(n % 10);
        assert(digits_value_range(s, i, i + w) == digits_value_range(s, i, i + w - 1) * 10
            + digit_val(s[i + w - 1]));
    }
}

/// A number written by the renderer reads back as the same decimal,
/// provided the character after it (if any) neither continues the digits
/// nor starts a fraction.
pub proof fn lemma_parse_number_round(s: Seq<char>, i: int, d: Dec)
    requires
        0 <= i,
        dec_wf(d),
        seq_contains_at(s, spec_render_dec(d), i),
        i + spec_render_dec(d).len() == s.len() || (!is_digit_char(
            s[i + spec_render_dec(d).len()],
        ) && s[i + spec_render_dec(d).len()] != '.'),
    ensures
        spec_parse_number(s, i) == Some((d, i + spec_render_dec(d).len())),
{
    lemma_limits();
    let r = spec_render_dec(d);
    let a = (if d.mant < 0 {
        -d.mant
    } else {
        d.mant as int
    }) as nat;
    let neg = d.mant < 0;
    let sign: Seq<char> = if neg {
        seq!['-']
    } else {
        Seq::empty()
    };
    let e = i + r.len();
    let i0 = if neg {
        i + 1
    } else {
        i
    };
    if d.scale == 0 {
        let ds = dec_digits(a);
        assert(r =~= sign + ds);
        lemma_contains_split(s, sign, ds, i);
        lemma_dec_digits_props(a);
        if neg {
            lemma_contains_char_at(s, sign, i, 0);
            assert(s[i] == '-');
        } else {
            lemma_contains_char_at(s, ds, i0, 0);
            assert(is_digit_char(s[i]));
            assert(s[i] != '-');
        }
        assert forall|k: int| i0 <= k < e implies is_digit_char(s[k]) by {
            lemma_contains_char_at(s, ds, i0, k - i0);
        }
        lemma_digit_run_at(s, i0, e);
        lemma_dec_digits_len_le(a, 34);
        lemma_digits_value_at(s, i0, a);
        assert(digits_value_range(s, i0, e) == a);
        assert(!(e + 1 < s.len() && s[e] == '.' && is_digit_char(s[e + 1])));
        lemma_canon_identity(d);
    } else {
        let p = pow10(d.scale as nat);
        lemma_pow10_positive(d.scale as nat);
        let ip = a / p;
        let fp = a % p;
        vstd::arithmetic::div_mod::lemma_fundamental_div_mod(a as int, p as int);
        vstd::arithmetic::div_mod::lemma_mod_bound(a as int, p as int);
        let ds = dec_digits(ip);
        let fs = dec_digits_pad(fp, d.scale as nat);
        assert(r == sign + ds + seq!['.'] + fs);
        assert(r =~= (sign + ds) + (seq!['.'] + fs));
        lemma_contains_split(s, sign + ds, seq!['.'] + fs, i);
        lemma_contains_split(s, sign, ds, i);
        let dot = i + sign.len() + ds.len();
        lemma_contains_split(s, seq!['.'], fs, dot);
        lemma_contains_char_at(s, seq!['.'], dot, 0);
        assert(s[dot] == '.');
        lemma_dec_digits_props(ip);
        lemma_pad_props(fp, d.scale as nat);
        if neg {
            lemma_contains_char_at(s, sign, i, 0);
            assert(s[i] == '-');
        } else {
            lemma_contains_char_at(s, ds, i0, 0);
            assert(is_digit_char(s[i]));
            assert(s[i] != '-');
        }
        assert(!is_digit_char('.'));
        assert forall|k: int| i0 <= k < dot implies is_digit_char(s[k]) by {
            lemma_contains_char_at(s, ds, i0, k - i0);
        }
        lemma_digit_run_at(s, i0, dot);
        assert(ip <= a) by (nonlinear_arith)
            requires
                a == p * (a / p) + a % p,
                ip == a / p,
                p >= 1,
                0 <= a % p,
                0 <= ip,
        ;
        lemma_dec_digits_len_le(ip, 34);
        lemma_digits_value_at(s, i0, ip);
        assert(e == dot + 1 + d.scale);
        lemma_contains_char_at(s, fs, dot + 1, 0);
        assert(is_digit_char(s[dot + 1]));
        assert(dot + 1 < s.len());
        assert forall|k: int| dot + 1 <= k < e implies is_digit_char(s[k]) by {
            lemma_contains_char_at(s, fs, dot + 1, k - dot - 1);
        }
        lemma_digit_run_at(s, dot + 1, e);
        lemma_digits_value_pad_at(s, dot + 1, fp, d.scale as nat);
        assert(ip * p + fp == a) by (nonlinear_arith)
            requires
                a == p * (a / p) + a % p,
                ip == a / p,
                fp == a % p,
        ;
        assert(digits_value_range(s, i0, dot) * pow10((e - dot - 1) as nat)
            + digits_value_range(s, dot + 1, e) == a);
        lemma_canon_identity(d);
    }
}

} // verus!
