//! Units, categories, and the conversion engine.
//!
//! Conversions go through a pivot unit per category (Celsius for
//! temperature, centimeters for length).  Every factor is an exact
//! rational, so the engine computes on integers: the conversion of
//! `m / 10^s` is an affine map `x -> (a*x + b) / c` applied in exact
//! arithmetic and rounded once at the end, to 0 decimal places for
//! temperature and 4 for length.

use vstd::prelude::*;
use crate::domain::num::{
    Dec, dec_input_ok, canon, spec_canon, pow10, pow10_i128, lemma_limits,
    lemma_canon_abs_value, lemma_pow10_adds, lemma_pow10_monotone, lemma_pow10_positive,
    lemma_round_div_bound, lemma_round_div_err, spec_round_div, round_div,
    spec_render_dec, dec_to_string, dec_digits, digits_string, spec_canon_abs,
};
use crate::domain::records::{ConversionRecord, record_wf};
use crate::domain::text::{seq_contains_at, str_eq};

verus! {

/// A measurement category; two units are convertible exactly when their
/// categories are equal.
#[derive(Clone, Copy, PartialEq, Eq, Structural, Debug)]
pub enum Category {
    Temperature,
    Length,
}

/// A supported unit of measurement.
#[derive(Clone, Copy, PartialEq, Eq, Structural, Debug)]
pub enum Unit {
    Celsius,
    Fahrenheit,
    Kelvin,
    Cm,
    Inch,
    Km,
    Miles,
}

/// The category a unit belongs to.
pub open spec fn spec_category(u: Unit) -> Category {
    match u {
        Unit::Celsius | Unit::Fahrenheit | Unit::Kelvin => Category::Temperature,
        Unit::Cm | Unit::Inch | Unit::Km | Unit::Miles => Category::Length,
    }
}

/// How many decimal places a conversion result keeps in this category.
pub open spec fn cat_decimals(c: Category) -> nat {
    match c {
        Category::Temperature => 0,
        Category::Length => 4,
    }
}

/// The lowercase, correctly spelled display name of a unit.
pub open spec fn spec_display_name(u: Unit) -> Seq<char> {
    match u {
        Unit::Celsius => "celsius"@,
        Unit::Fahrenheit => "fahrenheit"@,
        Unit::Kelvin => "kelvin"@,
        Unit::Cm => "cm"@,
        Unit::Inch => "inch"@,
        Unit::Km => "km"@,
        Unit::Miles => "miles"@,
    }
}

/// The display symbol of a unit.
pub open spec fn spec_symbol(u: Unit) -> Seq<char> {
    match u {
        Unit::Celsius => "°C"@,
        Unit::Fahrenheit => "°F"@,
        Unit::Kelvin => "K"@,
        Unit::Cm => "cm"@,
        Unit::Inch => "inch"@,
        Unit::Km => "km"@,
        Unit::Miles => "miles"@,
    }
}

/// The label of a category in user-facing text.
pub open spec fn spec_category_label(c: Category) -> Seq<char> {
    match c {
        Category::Temperature => "suhu"@,
        Category::Length => "panjang"@,
    }
}

/// Which unit a textual identifier denotes.  The canonical identifiers are
/// the lowercase display names; `celsius` also has the historical spelling
/// `celcius` as an alias.
pub open spec fn spec_unit_from_name(s: Seq<char>) -> Option<Unit> {
    if s == "celsius"@ || s == "celcius"@ {
        Some(Unit::Celsius)
    } else if s == "fahrenheit"@ {
        Some(Unit::Fahrenheit)
    } else if s == "kelvin"@ {
        Some(Unit::Kelvin)
    } else if s == "cm"@ {
        Some(Unit::Cm)
    } else if s == "inch"@ {
        Some(Unit::Inch)
    } else if s == "km"@ {
        Some(Unit::Km)
    } else if s == "miles"@ {
        Some(Unit::Miles)
    } else {
        None
    }
}

/// The fixed order in which the units are listed.
pub open spec fn spec_all_units() -> Seq<Unit> {
    seq![
        Unit::Celsius,
        Unit::Fahrenheit,
        Unit::Kelvin,
        Unit::Cm,
        Unit::Inch,
        Unit::Km,
        Unit::Miles,
    ]
}

/// One numbered line of the supported-units listing.
pub open spec fn spec_list_line(i: nat) -> Seq<char>
    recommends
        i < 7,
{
    let u = spec_all_units()[i as int];
    dec_digits(i + 1) + ". ["@ + spec_category_label(spec_category(u)) + "] "@
        + spec_display_name(u)
}

/// The listing header followed by the first `k` numbered lines.
pub open spec fn spec_list_lines(k: nat) -> Seq<char>
    decreases k,
{
    if k == 0 {
        "Satuan yang didukung:"@
    } else {
        spec_list_lines((k - 1) as nat) + "\n"@ + spec_list_line((k - 1) as nat)
    }
}

/// The full supported-units listing.
pub open spec fn spec_units_listing() -> Seq<char> {
    spec_list_lines(7)
}

/// Numerator of the slope of the map from a unit to its category's pivot.
pub open spec fn to_pivot_num(u: Unit) -> int {
    match u {
        Unit::Celsius => 1,
        Unit::Fahrenheit => 5,
        Unit::Kelvin => 100,
        Unit::Cm => 1,
        Unit::Inch => 127,
        Unit::Km => 100000,
        Unit::Miles => 804672,
    }
}

/// Offset numerator of the map to the pivot (only temperatures have one).
pub open spec fn to_pivot_off(u: Unit) -> int {
    match u {
        Unit::Celsius => 0,
        Unit::Fahrenheit => -160,
        Unit::Kelvin => -27315,
        Unit::Cm => 0,
        Unit::Inch => 0,
        Unit::Km => 0,
        Unit::Miles => 0,
    }
}

/// Denominator of the map to the pivot.
pub open spec fn to_pivot_den(u: Unit) -> int {
    match u {
        Unit::Celsius => 1,
        Unit::Fahrenheit => 9,
        Unit::Kelvin => 100,
        Unit::Cm => 1,
        Unit::Inch => 50,
        Unit::Km => 1,
        Unit::Miles => 5,
    }
}

proof fn lemma_coeff_bounds(u: Unit)
    ensures
        1 <= to_pivot_num(u) <= 804672,
        -27315 <= to_pivot_off(u) <= 0,
        1 <= to_pivot_den(u) <= 100,
{
}

/// The conversion result before rounding is the exact rational
/// `spec_convert_num(..) / spec_convert_den(..)`.
pub open spec fn spec_convert_num(from: Unit, to: Unit, v: Dec) -> int {
    let p = pow10(v.scale as nat) as int;
    let n1 = v.mant * to_pivot_num(from) + to_pivot_off(from) * p;
    n1 * to_pivot_den(to) - to_pivot_off(to) * to_pivot_den(from) * p
}

/// See [`spec_convert_num`].
pub open spec fn spec_convert_den(from: Unit, to: Unit, v: Dec) -> int {
    to_pivot_den(from) * to_pivot_num(to) * pow10(v.scale as nat) as int
}

/// The rounded conversion result, scaled by `10^decimals` of the target
/// category.
pub open spec fn spec_convert_scaled(from: Unit, to: Unit, v: Dec) -> int {
    spec_round_div(
        spec_convert_num(from, to, v) * pow10(cat_decimals(spec_category(to))) as int,
        spec_convert_den(from, to, v),
    )
}

/// The conversion result as a canonical decimal.
pub open spec fn spec_convert_result(from: Unit, to: Unit, v: Dec) -> Dec {
    let sc = spec_convert_scaled(from, to, v);
    spec_canon(
        sc < 0,
        (if sc < 0 {
            -sc
        } else {
            sc
        }) as nat,
        cat_decimals(spec_category(to)),
    )
}

/// The formatted summary of a successful conversion.
pub open spec fn spec_display_text(from: Unit, to: Unit, v: Dec) -> Seq<char> {
    spec_render_dec(v) + " "@ + spec_symbol(from) + " = "@ + spec_render_dec(
        spec_convert_result(from, to, v),
    ) + " "@ + spec_symbol(to)
}

/// The error message of a cross-category conversion attempt.
pub open spec fn spec_mismatch_msg(from: Unit, to: Unit) -> Seq<char> {
    "[ERROR] Tidak dapat mengonversi satuan yang berbeda kategori: ["@
        + spec_category_label(spec_category(from)) + "] "@ + spec_display_name(from) + " → ["@
        + spec_category_label(spec_category(to)) + "] "@ + spec_display_name(to)
}

impl Unit {
    /// The unit a textual identifier denotes, or `None` when the text
    /// matches no identifier.
    pub fn try_from_input(input: &str) -> (r: Option<Self>)
        ensures
            r == spec_unit_from_name(input@),
    {
        if str_eq(input, "celsius") || str_eq(input, "celcius") {
            Some(Unit::Celsius)
        } else if str_eq(input, "fahrenheit") {
            Some(Unit::Fahrenheit)
        } else if str_eq(input, "kelvin") {
            Some(Unit::Kelvin)
        } else if str_eq(input, "cm") {
            Some(Unit::Cm)
        } else if str_eq(input, "inch") {
            Some(Unit::Inch)
        } else if str_eq(input, "km") {
            Some(Unit::Km)
        } else if str_eq(input, "miles") {
            Some(Unit::Miles)
        } else {
            None
        }
    }

    /// All supported units, in listing order.
    pub fn get_all_units() -> (v: Vec<Unit>)
        ensures
            v@ == spec_all_units(),
    {
        let v = vec![
            Unit::Celsius,
            Unit::Fahrenheit,
            Unit::Kelvin,
            Unit::Cm,
            Unit::Inch,
            Unit::Km,
            Unit::Miles,
        ];
        proof {
            assert(v@ =~= spec_all_units());
        }
        v
    }

    /// The lowercase, correctly spelled display name.
    pub fn display_name(&self) -> (s: &'static str)
        ensures
            s@ == spec_display_name(*self),
    {
        match self {
            Unit::Celsius => "celsius",
            Unit::Fahrenheit => "fahrenheit",
            Unit::Kelvin => "kelvin",
            Unit::Cm => "cm",
            Unit::Inch => "inch",
            Unit::Km => "km",
            Unit::Miles => "miles",
        }
    }

    /// The label of a category in user-facing text.
    pub fn category_label(cat: &Category) -> (s: &'static str)
        ensures
            s@ == spec_category_label(*cat),
    {
        match cat {
            Category::Temperature => "suhu",
            Category::Length => "panjang",
        }
    }

    /// The category of this unit.
    pub fn get_category(&self) -> (c: Category)
        ensures
            c == spec_category(*self),
    {
        match self {
            Unit::Celsius | Unit::Fahrenheit | Unit::Kelvin => Category::Temperature,
            Unit::Cm | Unit::Inch | Unit::Km | Unit::Miles => Category::Length,
        }
    }

    /// The numbered, category-labelled listing of all supported units.
    pub fn list_as_string() -> (s: String)
        ensures
            s@ == spec_units_listing(),
    {
        let units = Self::get_all_units();
        let mut s = String::from_str("Satuan yang didukung:");
        let mut i: usize = 0;
        while i < units.len()
            invariant
                units@ == spec_all_units(),
                i <= 7,
                s@ == spec_list_lines(i as nat),
            decreases 7 - i,
        {
            s.append("\n");
            let line = list_line(i, &units[i]);
            s.append(line.as_str());
            proof {
                assert(s@ =~= spec_list_lines((i + 1) as nat));
            }
            i = i + 1;
        }
        s
    }

    /// Convert `value` from this unit to `to`, producing the full
    /// conversion record.
    ///
    /// On matching categories the record holds the display names, the
    /// input, the rounded result, and the formatted summary.  The caller
    /// is expected to hand the record to the history store best-effort:
    /// the conversion's success never depends on persistence.  On a
    /// category mismatch the descriptive error message is returned and
    /// nothing is computed.
    pub fn convert_record(&self, to: &Unit, value: &Dec) -> (r: Result<
        ConversionRecord,
        String,
    >)
        requires
            dec_input_ok(*value),
        ensures
            spec_category(*self) == spec_category(*to) ==> (r matches Ok(rec)
                && rec.from@ == spec_display_name(*self) && rec.to@ == spec_display_name(*to)
                && rec.value == *value && rec.result == spec_convert_result(*self, *to, *value)
                && rec.display_text@ == spec_display_text(*self, *to, *value) && record_wf(rec)
                && rec.result.scale as nat <= cat_decimals(spec_category(*to))),
            spec_category(*self) != spec_category(*to) ==> (r matches Err(e) && e@
                == spec_mismatch_msg(*self, *to)),
    {
        let cf = self.get_category();
        let ct = to.get_category();
        if cf != ct {
            return Err(mismatch_message(self, to));
        }
        let (an_f, bn_f, ad_f) = pivot_coeffs(self);
        let (an_t, bn_t, ad_t) = pivot_coeffs(to);
        proof {
            lemma_coeff_bounds(*self);
            lemma_coeff_bounds(*to);
            lemma_limits();
            lemma_pow10_monotone(value.scale as nat, 18);
            lemma_pow10_positive(value.scale as nat);
        }
        let p = pow10_i128(value.scale);
        let m = value.mant;
        proof {
            assert(-804672000000000000000000 <= m * an_f <= 804672000000000000000000)
                by (nonlinear_arith)
                requires
                    -1000000000000000000 <= m <= 1000000000000000000,
                    1 <= an_f <= 804672,
            ;
            assert(-27315000000000000000000 <= bn_f * p <= 0) by (nonlinear_arith)
                requires
                    -27315 <= bn_f <= 0,
                    1 <= p <= 1000000000000000000,
            ;
        }
        let n1 = m * an_f + bn_f * p;
        proof {
            assert(-100000000000000000000000000 <= n1 * ad_t <= 100000000000000000000000000)
                by (nonlinear_arith)
                requires
                    -1000000000000000000000000 <= n1 <= 1000000000000000000000000,
                    1 <= ad_t <= 100,
            ;
            assert(-2731500 <= bn_t * ad_f <= 0) by (nonlinear_arith)
                requires
                    -27315 <= bn_t <= 0,
                    1 <= ad_f <= 100,
            ;
            assert(-2731500000000000000000000 <= (bn_t * ad_f) * p <= 0) by (nonlinear_arith)
                requires
                    -2731500 <= bn_t * ad_f <= 0,
                    1 <= p <= 1000000000000000000,
            ;
        }
        let n2 = n1 * ad_t - (bn_t * ad_f) * p;
        proof {
            assert(1 <= ad_f * an_t <= 80467200) by (nonlinear_arith)
                requires
                    1 <= ad_f <= 100,
                    1 <= an_t <= 804672,
            ;
            assert(1 <= (ad_f * an_t) * p <= 80467200000000000000000000) by (nonlinear_arith)
                requires
                    1 <= ad_f * an_t <= 80467200,
                    1 <= p <= 1000000000000000000,
            ;
        }
        let den = (ad_f * an_t) * p;
        let dd = decimals_of(&ct);
        proof {
            lemma_pow10_monotone(dd as nat, 4);
            assert(pow10(4) == 10000) by {
                reveal_with_fuel(pow10, 5);
            }
        }
        let pd = pow10_i128(dd);
        proof {
            assert(
                -1030000000000000000000000000000 <= n2 * pd <= 1030000000000000000000000000000
            ) by (nonlinear_arith)
                requires
                    -103000000000000000000000000 <= n2 <= 103000000000000000000000000,
                    1 <= pd <= 10000,
            ;
        }
        let n3 = n2 * pd;
        let scaled = round_div(n3, den);
        proof {
            lemma_round_div_bound(n3 as int, den as int);
        }
        let result = canon(
            scaled < 0,
            if scaled < 0 {
                -scaled
            } else {
                scaled
            },
            dd,
        );
        let mut text = dec_to_string(value);
        text.append(" ");
        let sym_f = Unit::get_symbol(self);
        text.append(sym_f.as_str());
        text.append(" = ");
        let result_str = dec_to_string(&result);
        text.append(result_str.as_str());
        text.append(" ");
        let sym_t = Unit::get_symbol(to);
        text.append(sym_t.as_str());
        proof {
            assert(text@ =~= spec_display_text(*self, *to, *value));
        }
        Ok(
            ConversionRecord {
                from: String::from_str(self.display_name()),
                to: String::from_str(to.display_name()),
                value: *value,
                result,
                display_text: text,
            },
        )
    }

    /// Convert `value` from this unit to `to`, returning the formatted
    /// summary, or the category-mismatch error message.
    ///
    /// This is [`Unit::convert_record`] reduced to its display text; the
    /// record that a caller would persist is available from that function.
    pub fn convert(&self, to: &Unit, value: &Dec) -> (r: Result<String, String>)
        requires
            dec_input_ok(*value),
        ensures
            spec_category(*self) == spec_category(*to) ==> (r matches Ok(s) && s@
                == spec_display_text(*self, *to, *value)),
            spec_category(*self) != spec_category(*to) ==> (r matches Err(e) && e@
                == spec_mismatch_msg(*self, *to)),
    {
        match self.convert_record(to, value) {
            Ok(rec) => Ok(rec.display_text),
            Err(e) => Err(e),
        }
    }

    /// The display symbol of a unit.
    pub fn get_symbol(unit: &Unit) -> (s: String)
        ensures
            s@ == spec_symbol(*unit),
    {
        let raw = match unit {
            Unit::Celsius => "°C",
            Unit::Fahrenheit => "°F",
            Unit::Kelvin => "K",
            Unit::Cm => "cm",
            Unit::Inch => "inch",
            Unit::Km => "km",
            Unit::Miles => "miles",
        };
        String::from_str(raw)
    }
}

/// One numbered listing line: `"{i+1}. [{label}] {name}"`.
fn list_line(i: usize, u: &Unit) -> (s: String)
    requires
        i < 7,
        spec_all_units()[i as int] == *u,
    ensures
        s@ == spec_list_line(i as nat),
{
    let mut s = digits_string((i as u128) + 1);
    s.append(". [");
    let cat = u.get_category();
    s.append(Unit::category_label(&cat));
    s.append("] ");
    s.append(u.display_name());
    proof {
        assert(s@ =~= spec_list_line(i as nat));
    }
    s
}

/// The affine coefficients of the map from a unit to its category's pivot.
fn pivot_coeffs(u: &Unit) -> (c: (i128, i128, i128))
    ensures
        c.0 == to_pivot_num(*u),
        c.1 == to_pivot_off(*u),
        c.2 == to_pivot_den(*u),
{
    match u {
        Unit::Celsius => (1, 0, 1),
        Unit::Fahrenheit => (5, -160, 9),
        Unit::Kelvin => (100, -27315, 100),
        Unit::Cm => (1, 0, 1),
        Unit::Inch => (127, 0, 50),
        Unit::Km => (100000, 0, 1),
        Unit::Miles => (804672, 0, 5),
    }
}

/// How many decimal places a conversion result keeps in this category.
fn decimals_of(c: &Category) -> (d: u32)
    ensures
        d as nat == cat_decimals(*c),
{
    match c {
        Category::Temperature => 0,
        Category::Length => 4,
    }
}

/// The cross-category error message.
fn mismatch_message(from: &Unit, to: &Unit) -> (s: String)
    ensures
        s@ == spec_mismatch_msg(*from, *to),
{
    let mut s = String::from_str(
        "[ERROR] Tidak dapat mengonversi satuan yang berbeda kategori: [",
    );
    let cf = from.get_category();
    s.append(Unit::category_label(&cf));
    s.append("] ");
    s.append(from.display_name());
    s.append(" → [");
    let ct = to.get_category();
    s.append(Unit::category_label(&ct));
    s.append("] ");
    s.append(to.display_name());
    proof {
        assert(s@ =~= spec_mismatch_msg(*from, *to));
    }
    s
}

/// Law: every cross-category conversion fails, and its error message
/// contains the phrase that identifies a category mismatch.  Together with
/// [`Unit::convert`]'s contract (a mismatch always yields `Err` carrying
/// exactly [`spec_mismatch_msg`]) this holds for every cross-category pair.
pub proof fn lemma_mismatch_msg_contains_phrase(from: Unit, to: Unit)
    ensures
        exists|i: int|
            #[trigger] seq_contains_at(
                spec_mismatch_msg(from, to),
                "Tidak dapat mengonversi satuan yang berbeda kategori"@,
                i,
            ),
{
    let msg = spec_mismatch_msg(from, to);
    let phrase = "Tidak dapat mengonversi satuan yang berbeda kategori"@;
    reveal_strlit("Tidak dapat mengonversi satuan yang berbeda kategori");
    reveal_strlit("[ERROR] Tidak dapat mengonversi satuan yang berbeda kategori: [");
    assert(msg.subrange(8, 8 + phrase.len() as int) =~= phrase);
    assert(seq_contains_at(msg, phrase, 8));
}

proof fn lemma_scaled_bound(a: Unit, b: Unit, x: Dec)
    requires
        spec_category(a) == spec_category(b),
        dec_input_ok(x),
    ensures
        -1030000000000000000000000000001 <= spec_convert_scaled(a, b, x)
            <= 1030000000000000000000000000001,
{
    lemma_coeff_bounds(a);
    lemma_coeff_bounds(b);
    lemma_limits();
    lemma_pow10_monotone(x.scale as nat, 18);
    lemma_pow10_positive(x.scale as nat);
    let px = pow10(x.scale as nat) as int;
    let m = x.mant as int;
    let nf = spec_convert_num(a, b, x);
    let df = spec_convert_den(a, b, x);
    assert(-804672000000000000000000 <= m * to_pivot_num(a) <= 804672000000000000000000)
        by (nonlinear_arith)
        requires
            -1000000000000000000 <= m <= 1000000000000000000,
            1 <= to_pivot_num(a) <= 804672,
    ;
    assert(-27315000000000000000000 <= to_pivot_off(a) * px <= 0) by (nonlinear_arith)
        requires
            -27315 <= to_pivot_off(a) <= 0,
            1 <= px <= 1000000000000000000,
    ;
    let n1 = m * to_pivot_num(a) + to_pivot_off(a) * px;
    assert(-100000000000000000000000000 <= n1 * to_pivot_den(b) <= 100000000000000000000000000)
        by (nonlinear_arith)
        requires
            -1000000000000000000000000 <= n1 <= 1000000000000000000000000,
            1 <= to_pivot_den(b) <= 100,
    ;
    assert(-2731500000000000000000000 <= to_pivot_off(b) * to_pivot_den(a) * px <= 0)
        by (nonlinear_arith)
        requires
            -27315 <= to_pivot_off(b) <= 0,
            1 <= to_pivot_den(a) <= 100,
            1 <= px <= 1000000000000000000,
    ;
    assert(-103000000000000000000000000 <= nf <= 103000000000000000000000000);
    assert(1 <= df) by (nonlinear_arith)
        requires
            df == to_pivot_den(a) * to_pivot_num(b) * px,
            1 <= to_pivot_den(a),
            1 <= to_pivot_num(b),
            1 <= px,
    ;
    let dd = cat_decimals(spec_category(b));
    let pd = pow10(dd) as int;
    assert(dd == 0 || dd == 4);
    assert(pow10(0) == 1);
    assert(pow10(4) == 10000) by {
        reveal_with_fuel(pow10, 5);
    }
    assert(
        -1030000000000000000000000000000 <= nf * pd <= 1030000000000000000000000000000
    ) by (nonlinear_arith)
        requires
            -103000000000000000000000000 <= nf <= 103000000000000000000000000,
            1 <= pd <= 10000,
    ;
    lemma_round_div_bound(nf * pd, df);
}

/// Law: conversion round-trips within the stated rounding precision.
///
/// Let `y` be the result of converting `x` from `a` to `b` (rounded to the
/// category's `d` decimal places) and let `r2` be the scaled result of
/// converting `y` back from `b` to `a`, so the round-trip value is
/// `r2 / 10^d`.  Then the round trip differs from `x` by at most
/// `(1 + slope) / 2` units of `10^-d`, where `slope` is the exact factor
/// of the back conversion: each of the two roundings contributes at most
/// half a unit, the second one scaled by the back conversion.  The bound
/// is stated below with every fraction cleared.
pub proof fn lemma_convert_round_trip(a: Unit, b: Unit, x: Dec)
    requires
        spec_category(a) == spec_category(b),
        dec_input_ok(x),
    ensures
        ({
            let d = cat_decimals(spec_category(a));
            let r2 = spec_convert_scaled(b, a, spec_convert_result(a, b, x));
            let back_num = to_pivot_num(b) * to_pivot_den(a);
            let back_den = to_pivot_den(b) * to_pivot_num(a);
            let px = pow10(x.scale as nat) as int;
            let diff = 2 * back_den * (r2 * px - x.mant * pow10(d) as int);
            -((back_den + back_num) * px) <= diff <= (back_den + back_num) * px
        }),
{
    lemma_coeff_bounds(a);
    lemma_coeff_bounds(b);
    lemma_pow10_positive(x.scale as nat);
    let c = spec_category(a);
    let d = cat_decimals(c);
    let na = to_pivot_num(a);
    let oa = to_pivot_off(a);
    let da = to_pivot_den(a);
    let nb = to_pivot_num(b);
    let ob = to_pivot_off(b);
    let db = to_pivot_den(b);
    let mx = x.mant as int;
    let px = pow10(x.scale as nat) as int;
    let cp = pow10(d) as int;
    let nf = spec_convert_num(a, b, x);
    let df = spec_convert_den(a, b, x);
    let r1 = spec_convert_scaled(a, b, x);
    assert(cat_decimals(spec_category(b)) == d);
    assert(nf == (mx * na + oa * px) * db - ob * da * px);
    assert(df == da * nb * px);
    assert(1 <= df) by (nonlinear_arith)
        requires
            df == da * nb * px,
            1 <= da,
            1 <= nb,
            1 <= px,
    ;
    lemma_round_div_err(nf * cp, df);
    let e1 = 2 * (r1 * df - nf * cp);
    assert(-df <= e1 <= df);
    // The forward result, canonicalised.
    lemma_scaled_bound(a, b, x);
    let y = spec_convert_result(a, b, x);
    let ar1 = (if r1 < 0 {
        -r1
    } else {
        r1
    }) as nat;
    lemma_canon_abs_value(ar1, d);
    let ca = spec_canon_abs(ar1, d).0;
    let cs = spec_canon_abs(ar1, d).1;
    assert(y.scale == cs);
    let q = pow10((d - cs) as nat) as int;
    assert(ca * pow10((d - cs) as nat) == ar1);
    assert(1 <= q) by {
        lemma_pow10_positive((d - cs) as nat);
    }
    assert(ca <= ar1) by (nonlinear_arith)
        requires
            ca * q == ar1,
            1 <= q,
            0 <= ca,
    ;
    let my = y.mant as int;
    assert(my == if r1 < 0 {
        -(ca as int)
    } else {
        ca as int
    });
    let sy = y.scale as nat;
    let py = pow10(sy) as int;
    assert(1 <= py) by {
        lemma_pow10_positive(sy);
    }
    assert(my * q == r1) by (nonlinear_arith)
        requires
            (r1 < 0 ==> my == -(ca as int) && ca * q == -r1) && (r1 >= 0 ==> my == ca as int
                && ca * q == r1),
    ;
    assert(cp == py * q) by {
        lemma_pow10_adds(sy, (d - cs) as nat);
    }
    // The backward conversion of `y`.
    let ng = spec_convert_num(b, a, y);
    let dg = spec_convert_den(b, a, y);
    let r2 = spec_convert_scaled(b, a, y);
    assert(ng == (my * nb + ob * py) * da - oa * db * py);
    assert(dg == db * na * py);
    assert(1 <= dg) by (nonlinear_arith)
        requires
            dg == db * na * py,
            1 <= db,
            1 <= na,
            1 <= py,
    ;
    lemma_round_div_err(ng * cp, dg);
    let e2 = 2 * (r2 * dg - ng * cp);
    assert(-dg <= e2 <= dg);
    // Exact algebra: the two rounding errors are all that separates the
    // round trip from the identity.  Step by step, to keep each
    // nonlinear query small.
    let t1 = my * nb + ob * py;
    assert(ng == t1 * da - (oa * db) * py);
    assert(ng * q == (t1 * da) * q - ((oa * db) * py) * q) by (nonlinear_arith)
        requires
            ng == t1 * da - (oa * db) * py,
    ;
    assert(t1 * q == (my * q) * nb + ob * (py * q)) by (nonlinear_arith)
        requires
            t1 == my * nb + ob * py,
    ;
    assert(t1 * q == r1 * nb + ob * cp);
    assert((t1 * da) * q == (t1 * q) * da) by (nonlinear_arith);
    assert((r1 * nb + ob * cp) * da == (r1 * nb) * da + (ob * da) * cp) by (nonlinear_arith);
    assert(((oa * db) * py) * q == (oa * db) * (py * q)) by (nonlinear_arith);
    let a1 = (r1 * nb) * da;
    let a2 = (ob * da) * cp;
    let a3 = (oa * db) * cp;
    assert(ng * q == a1 + a2 - a3);
    // Forward error, pushed through the back conversion's denominator.
    let t0 = mx * na + oa * px;
    assert(nf == t0 * db - (ob * da) * px);
    assert(2 * px * (ng * q) == 2 * (px * a1) + 2 * (px * a2) - 2 * (px * a3))
        by (nonlinear_arith)
        requires
            ng * q == a1 + a2 - a3,
    ;
    assert(px * a1 == r1 * ((da * nb) * px)) by (nonlinear_arith)
        requires
            a1 == (r1 * nb) * da,
    ;
    assert(px * a1 == r1 * df);
    assert(2 * (r1 * df) == 2 * (nf * cp) + e1);
    assert(nf * cp == (t0 * db) * cp - ((ob * da) * px) * cp) by (nonlinear_arith)
        requires
            nf == t0 * db - (ob * da) * px,
    ;
    assert(px * a2 == ((ob * da) * px) * cp) by (nonlinear_arith)
        requires
            a2 == (ob * da) * cp,
    ;
    assert((t0 * db) * cp == ((mx * na) * db) * cp + ((oa * px) * db) * cp) by (nonlinear_arith)
        requires
            t0 == mx * na + oa * px,
    ;
    assert(px * a3 == ((oa * px) * db) * cp) by (nonlinear_arith)
        requires
            a3 == (oa * db) * cp,
    ;
    let core = ((mx * na) * db) * cp;
    assert(2 * px * (ng * q) == 2 * core + e1);
    // Backward error on top.
    let back_den = db * na;
    let goal = 2 * back_den * (r2 * px - mx * cp);
    assert(goal * py == 2 * ((back_den * (r2 * px)) * py) - 2 * ((back_den * (mx * cp)) * py))
        by (nonlinear_arith)
        requires
            goal == 2 * back_den * (r2 * px - mx * cp),
    ;
    assert((back_den * (r2 * px)) * py == px * (r2 * (back_den * py))) by (nonlinear_arith);
    assert(r2 * (back_den * py) == r2 * dg);
    assert(2 * (r2 * dg) == 2 * (ng * cp) + e2);
    assert(px * (2 * (r2 * dg)) == px * (2 * (ng * cp) + e2)) by (nonlinear_arith)
        requires
            2 * (r2 * dg) == 2 * (ng * cp) + e2,
    ;
    assert(px * (2 * (ng * cp) + e2) == 2 * (px * (ng * cp)) + px * e2) by (nonlinear_arith);
    assert(ng * cp == (ng * q) * py) by (nonlinear_arith)
        requires
            cp == py * q,
    ;
    assert(px * (ng * cp) == (px * (ng * q)) * py) by (nonlinear_arith)
        requires
            ng * cp == (ng * q) * py,
    ;
    assert(2 * ((px * (ng * q)) * py) == (2 * px * (ng * q)) * py) by (nonlinear_arith);
    assert((2 * px * (ng * q)) * py == (2 * core + e1) * py) by (nonlinear_arith)
        requires
            2 * px * (ng * q) == 2 * core + e1,
    ;
    assert((2 * core + e1) * py == 2 * (core * py) + py * e1) by (nonlinear_arith);
    assert(2 * (px * (r2 * (back_den * py))) == 2 * (core * py) + py * e1 + px * e2)
        by (nonlinear_arith)
        requires
            px * (2 * (r2 * dg)) == 2 * (px * (ng * cp)) + px * e2,
            2 * (px * (ng * cp)) == 2 * (core * py) + py * e1,
            r2 * (back_den * py) == r2 * dg,
    ;
    assert((back_den * (mx * cp)) * py == core * py) by (nonlinear_arith)
        requires
            back_den == db * na,
            core == ((mx * na) * db) * cp,
    ;
    assert(goal * py == py * e1 + px * e2) by (nonlinear_arith)
        requires
            goal * py == 2 * ((back_den * (r2 * px)) * py) - 2 * ((back_den * (mx * cp)) * py),
            (back_den * (r2 * px)) * py == px * (r2 * (back_den * py)),
            2 * (px * (r2 * (back_den * py))) == 2 * (core * py) + py * e1 + px * e2,
            (back_den * (mx * cp)) * py == core * py,
    ;
    // Bound the error sum and cancel the common positive factor.
    assert(-(py * df) <= py * e1 <= py * df) by (nonlinear_arith)
        requires
            -df <= e1 <= df,
            1 <= py,
    ;
    assert(-(px * dg) <= px * e2 <= px * dg) by (nonlinear_arith)
        requires
            -dg <= e2 <= dg,
            1 <= px,
    ;
    let bound = (back_den + nb * da) * px;
    assert(py * df + px * dg == bound * py) by (nonlinear_arith)
        requires
            df == da * nb * px,
            dg == db * na * py,
            bound == (db * na + nb * da) * px,
    ;
    assert(-bound <= goal <= bound) by (nonlinear_arith)
        requires
            -(bound * py) <= goal * py <= bound * py,
            1 <= py,
    ;
}

} // verus!
