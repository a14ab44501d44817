//! Conversion history records and the history document codec.
//!
//! The history is persisted as a pretty-printed JSON array of record
//! objects.  The codec here is the authority on that layout: rendering
//! produces exactly the document described by [`spec_render_history`],
//! and parsing accepts such documents (with arbitrary blank space
//! between tokens and the five fields in their fixed order).  Anything
//! else is treated as no history at all — by design the store favours
//! availability over strictness, so a corrupt or foreign file silently
//! reads back as empty.

use vstd::prelude::*;
use crate::domain::num::{
    Dec, dec_wf, spec_render_dec, dec_to_string, dec_digits, digits_string, is_digit_char,
    lemma_dec_digits_props,
};
use crate::domain::text::{
    lemma_contains_char_at, lemma_contains_join, lemma_contains_split, lemma_contains_within,
    push_char, seq_contains_at, str_chars,
};
use crate::domain::json::{
    ws_end, ws_end_exec, lemma_ws_end_bounds, lemma_ws_end_at, spec_parse_lit, parse_lit_exec,
    spec_parse_json_string, parse_json_string_exec, lemma_parse_strchars_bounds,
    spec_parse_number, parse_number_exec, lemma_parse_number_bounds, is_ws, lemma_parse_lit_at,
    lemma_parse_lit_mismatch, lemma_parse_json_string_round, lemma_parse_number_round,
};

verus! {

/// One completed conversion, as it is kept in the history.
///
/// `display_text` caches the formatted summary; the conversion engine
/// derives it from the other four fields when it builds a record.
#[derive(Clone, Debug)]
pub struct ConversionRecord {
    pub from: String,
    pub to: String,
    pub value: Dec,
    pub result: Dec,
    pub display_text: String,
}

/// The mathematical content of a record: its strings as character
/// sequences, its numbers as decimals.
pub struct RecordView {
    pub from: Seq<char>,
    pub to: Seq<char>,
    pub value: Dec,
    pub result: Dec,
    pub display_text: Seq<char>,
}

impl View for ConversionRecord {
    type V = RecordView;

    open spec fn view(&self) -> RecordView {
        RecordView {
            from: self.from@,
            to: self.to@,
            value: self.value,
            result: self.result,
            display_text: self.display_text@,
        }
    }
}

/// A well-formed record: both numbers are well-formed decimals.
pub open spec fn record_view_wf(r: RecordView) -> bool {
    &&& dec_wf(r.value)
    &&& dec_wf(r.result)
}

/// A well-formed record value.
pub open spec fn record_wf(r: ConversionRecord) -> bool {
    record_view_wf(r@)
}

/// The views of a sequence of records.
pub open spec fn record_views(s: Seq<ConversionRecord>) -> Seq<RecordView> {
    s.map_values(|r: ConversionRecord| r@)
}

/// How one character is written inside a JSON string: quote, backslash
/// and the common control characters are escaped, everything else stands
/// for itself.
pub open spec fn esc_char(c: char) -> Seq<char> {
    if c == '"' {
        seq!['\\', '"']
    } else if c == '\\' {
        seq!['\\', '\\']
    } else if c == '\n' {
        seq!['\\', 'n']
    } else if c == '\r' {
        seq!['\\', 'r']
    } else if c == '\t' {
        seq!['\\', 't']
    } else {
        seq![c]
    }
}

/// A character sequence with every character escaped as JSON wants it.
pub open spec fn spec_escape(s: Seq<char>) -> Seq<char>
    decreases s.len(),
{
    if s.len() == 0 {
        Seq::empty()
    } else {
        esc_char(s.first()) + spec_escape(s.drop_first())
    }
}

/// A JSON string token: the escaped content between double quotes.
pub open spec fn spec_json_string(s: Seq<char>) -> Seq<char> {
    seq!['"'] + spec_escape(s) + seq!['"']
}

/// One record as a JSON object, from its opening brace to its closing
/// brace (indented for a two-space-indented array element).
pub open spec fn spec_render_record(r: RecordView) -> Seq<char> {
    "{\n    \"from\": "@ + spec_json_string(r.from) + ",\n    \"to\": "@ + spec_json_string(r.to)
        + ",\n    \"value\": "@ + spec_render_dec(r.value) + ",\n    \"result\": "@
        + spec_render_dec(r.result) + ",\n    \"display_text\": "@ + spec_json_string(
        r.display_text,
    ) + "\n  }"@
}

/// The comma-separated, indented array elements (at least one).
pub open spec fn spec_render_items(rs: Seq<RecordView>) -> Seq<char>
    recommends
        rs.len() >= 1,
    decreases rs.len(),
{
    if rs.len() <= 1 {
        "  "@ + spec_render_record(rs[0])
    } else {
        spec_render_items(rs.drop_last()) + ",\n  "@ + spec_render_record(rs.last())
    }
}

/// The whole history document: a pretty-printed JSON array.
pub open spec fn spec_render_history(rs: Seq<RecordView>) -> Seq<char> {
    if rs.len() == 0 {
        "[]"@
    } else {
        "[\n"@ + spec_render_items(rs) + "\n]"@
    }
}

/// Escaping a sequence extended by one character appends that character's
/// escape.
proof fn lemma_escape_snoc(s: Seq<char>, c: char)
    ensures
        spec_escape(s.push(c)) == spec_escape(s) + esc_char(c),
    decreases s.len(),
{
    if s.len() == 0 {
        let e = Seq::<char>::empty();
        assert(spec_escape(e) == e);
        assert(s.push(c).drop_first() =~= e);
        assert(s.push(c).first() == c);
        assert(spec_escape(s.push(c)) == esc_char(c) + spec_escape(e));
        assert(esc_char(c) + spec_escape(e) =~= esc_char(c));
        assert(spec_escape(s) + esc_char(c) =~= esc_char(c));
    } else {
        lemma_escape_snoc(s.drop_first(), c);
        assert(s.push(c).drop_first() =~= s.drop_first().push(c));
        assert(s.push(c).first() == s.first());
        assert(spec_escape(s.push(c)) == esc_char(s.first()) + spec_escape(s.drop_first().push(c)));
        assert(spec_escape(s) == esc_char(s.first()) + spec_escape(s.drop_first()));
        assert(esc_char(s.first()) + (spec_escape(s.drop_first()) + esc_char(c)) =~= (esc_char(
            s.first(),
        ) + spec_escape(s.drop_first())) + esc_char(c));
    }
}

/// Append the escaped content of `s` to `out`.
fn escape_into(out: &mut String, s: &str)
    ensures
        final(out)@ == old(out)@ + spec_escape(s@),
{
    let len = s.unicode_len();
    let mut i: usize = 0;
    while i < len
        invariant
            len == s@.len(),
            i <= len,
            out@ == old(out)@ + spec_escape(s@.take(i as int)),
        decreases len - i,
    {
        let c = s.get_char(i);
        if c == '"' {
            out.append("\\\"");
        } else if c == '\\' {
            out.append("\\\\");
        } else if c == '\n' {
            out.append("\\n");
        } else if c == '\r' {
            out.append("\\r");
        } else if c == '\t' {
            out.append("\\t");
        } else {
            push_char(out, c);
        }
        proof {
            reveal_strlit("\\\"");
            reveal_strlit("\\\\");
            reveal_strlit("\\n");
            reveal_strlit("\\r");
            reveal_strlit("\\t");
            lemma_escape_snoc(s@.take(i as int), s@[i as int]);
            assert(s@.take(i as int).push(s@[i as int]) =~= s@.take(i + 1));
            assert(out@ =~= old(out)@ + spec_escape(s@.take(i + 1)));
        }
        i = i + 1;
    }
    proof {
        assert(s@.take(len as int) =~= s@);
    }
}

/// Append a JSON string token for `s` to `out`.
fn json_string_into(out: &mut String, s: &str)
    ensures
        final(out)@ == old(out)@ + spec_json_string(s@),
{
    out.append("\"");
    escape_into(out, s);
    out.append("\"");
    proof {
        reveal_strlit("\"");
        assert(out@ =~= old(out)@ + spec_json_string(s@));
    }
}

/// Append one record object to `out`.
fn record_into(out: &mut String, r: &ConversionRecord)
    requires
        record_wf(*r),
    ensures
        final(out)@ == old(out)@ + spec_render_record(r@),
{
    out.append("{\n    \"from\": ");
    json_string_into(out, r.from.as_str());
    out.append(",\n    \"to\": ");
    json_string_into(out, r.to.as_str());
    out.append(",\n    \"value\": ");
    let v = dec_to_string(&r.value);
    out.append(v.as_str());
    out.append(",\n    \"result\": ");
    let w = dec_to_string(&r.result);
    out.append(w.as_str());
    out.append(",\n    \"display_text\": ");
    json_string_into(out, r.display_text.as_str());
    out.append("\n  }");
    proof {
        assert(out@ =~= old(out)@ + spec_render_record(r@));
    }
}

/// Serialize a whole history to its JSON document.
pub fn history_to_text(records: &Vec<ConversionRecord>) -> (s: String)
    requires
        forall|k: int| 0 <= k < records@.len() ==> record_wf(#[trigger] records@[k]),
    ensures
        s@ == spec_render_history(record_views(records@)),
{
    if records.len() == 0 {
        let s = String::from_str("[]");
        proof {
            assert(record_views(records@) =~= Seq::<RecordView>::empty());
        }
        s
    } else {
        let ghost views = record_views(records@);
        let mut s = String::from_str("[\n");
        let mut i: usize = 0;
        while i < records.len()
            invariant
                forall|k: int| 0 <= k < records@.len() ==> record_wf(#[trigger] records@[k]),
                views == record_views(records@),
                i <= records@.len(),
                i > 0 ==> s@ == "[\n"@ + spec_render_items(views.take(i as int)),
                i == 0 ==> s@ == "[\n"@,
            decreases records@.len() - i,
        {
            if i == 0 {
                s.append("  ");
            } else {
                s.append(",\n  ");
            }
            record_into(&mut s, &records[i]);
            proof {
                assert(views.take(i + 1).drop_last() =~= views.take(i as int));
                assert(views.take(i + 1).last() == records@[i as int]@);
                assert(views.take(i + 1)[0] == views[0]);
                assert(s@ =~= "[\n"@ + spec_render_items(views.take(i + 1)));
            }
            i = i + 1;
        }
        s.append("\n]");
        proof {
            assert(views.take(records@.len() as int) =~= views);
            assert(s@ =~= spec_render_history(views));
        }
        s
    }
}

/// Expect `lit` after blank space, threading failure through.
pub open spec fn lit_after_ws(s: Seq<char>, oi: Option<int>, lit: Seq<char>) -> Option<int> {
    match oi {
        Some(i) => spec_parse_lit(s, ws_end(s, i), lit),
        None => None,
    }
}

/// Expect a JSON string token after blank space.
pub open spec fn string_after_ws(s: Seq<char>, oi: Option<int>) -> Option<(Seq<char>, int)> {
    match oi {
        Some(i) => spec_parse_json_string(s, ws_end(s, i)),
        None => None,
    }
}

/// Expect a number token after blank space.
pub open spec fn number_after_ws(s: Seq<char>, oi: Option<int>) -> Option<(Dec, int)> {
    match oi {
        Some(i) => spec_parse_number(s, ws_end(s, i)),
        None => None,
    }
}

/// The position after a parsed token.
pub open spec fn pos_of<T>(o: Option<(T, int)>) -> Option<int> {
    match o {
        Some((_t, j)) => Some(j),
        None => None,
    }
}

/// One record object at position `i` (which must hold its opening brace):
/// the five fields in their fixed order, blank space free between tokens.
pub open spec fn spec_parse_record(s: Seq<char>, i: int) -> Option<(RecordView, int)> {
    let i1 = spec_parse_lit(s, i, "{"@);
    let i2 = lit_after_ws(s, i1, "\"from\""@);
    let i3 = lit_after_ws(s, i2, ":"@);
    let ofrom = string_after_ws(s, i3);
    let i5 = lit_after_ws(s, pos_of(ofrom), ","@);
    let i6 = lit_after_ws(s, i5, "\"to\""@);
    let i7 = lit_after_ws(s, i6, ":"@);
    let oto = string_after_ws(s, i7);
    let i9 = lit_after_ws(s, pos_of(oto), ","@);
    let i10 = lit_after_ws(s, i9, "\"value\""@);
    let i11 = lit_after_ws(s, i10, ":"@);
    let oval = number_after_ws(s, i11);
    let i13 = lit_after_ws(s, pos_of(oval), ","@);
    let i14 = lit_after_ws(s, i13, "\"result\""@);
    let i15 = lit_after_ws(s, i14, ":"@);
    let ores = number_after_ws(s, i15);
    let i17 = lit_after_ws(s, pos_of(ores), ","@);
    let i18 = lit_after_ws(s, i17, "\"display_text\""@);
    let i19 = lit_after_ws(s, i18, ":"@);
    let odt = string_after_ws(s, i19);
    let oend = lit_after_ws(s, pos_of(odt), "}"@);
    match oend {
        Some(end) => Some(
            (
                RecordView {
                    from: (ofrom->0).0,
                    to: (oto->0).0,
                    value: (oval->0).0,
                    result: (ores->0).0,
                    display_text: (odt->0).0,
                },
                end,
            ),
        ),
        None => None,
    }
}

/// A parsed record is well formed and ends strictly after where it began.
pub proof fn lemma_parse_record_bounds(s: Seq<char>, i: int)
    requires
        0 <= i <= s.len(),
        spec_parse_record(s, i) is Some,
    ensures
        i < (spec_parse_record(s, i)->0).1 <= s.len(),
        record_view_wf((spec_parse_record(s, i)->0).0),
{
    reveal_strlit("{");
    let i1 = spec_parse_lit(s, i, "{"@);
    assert(i1 is Some && i < i1->0 <= s.len());
    lemma_lit_after_ws_bounds(s, i1, "\"from\""@);
    let i2 = lit_after_ws(s, i1, "\"from\""@);
    lemma_lit_after_ws_bounds(s, i2, ":"@);
    let i3 = lit_after_ws(s, i2, ":"@);
    let ofrom = string_after_ws(s, i3);
    lemma_string_after_ws_bounds(s, i3);
    let i5 = lit_after_ws(s, pos_of(ofrom), ","@);
    lemma_lit_after_ws_bounds(s, pos_of(ofrom), ","@);
    let i6 = lit_after_ws(s, i5, "\"to\""@);
    lemma_lit_after_ws_bounds(s, i5, "\"to\""@);
    let i7 = lit_after_ws(s, i6, ":"@);
    lemma_lit_after_ws_bounds(s, i6, ":"@);
    let oto = string_after_ws(s, i7);
    lemma_string_after_ws_bounds(s, i7);
    let i9 = lit_after_ws(s, pos_of(oto), ","@);
    lemma_lit_after_ws_bounds(s, pos_of(oto), ","@);
    let i10 = lit_after_ws(s, i9, "\"value\""@);
    lemma_lit_after_ws_bounds(s, i9, "\"value\""@);
    let i11 = lit_after_ws(s, i10, ":"@);
    lemma_lit_after_ws_bounds(s, i10, ":"@);
    let oval = number_after_ws(s, i11);
    lemma_number_after_ws_bounds(s, i11);
    let i13 = lit_after_ws(s, pos_of(oval), ","@);
    lemma_lit_after_ws_bounds(s, pos_of(oval), ","@);
    let i14 = lit_after_ws(s, i13, "\"result\""@);
    lemma_lit_after_ws_bounds(s, i13, "\"result\""@);
    let i15 = lit_after_ws(s, i14, ":"@);
    lemma_lit_after_ws_bounds(s, i14, ":"@);
    let ores = number_after_ws(s, i15);
    lemma_number_after_ws_bounds(s, i15);
    let i17 = lit_after_ws(s, pos_of(ores), ","@);
    lemma_lit_after_ws_bounds(s, pos_of(ores), ","@);
    let i18 = lit_after_ws(s, i17, "\"display_text\""@);
    lemma_lit_after_ws_bounds(s, i17, "\"display_text\""@);
    let i19 = lit_after_ws(s, i18, ":"@);
    lemma_lit_after_ws_bounds(s, i18, ":"@);
    let odt = string_after_ws(s, i19);
    lemma_string_after_ws_bounds(s, i19);
    let oend = lit_after_ws(s, pos_of(odt), "}"@);
    lemma_lit_after_ws_bounds(s, pos_of(odt), "}"@);
}

/// Bounds for a literal expected after blank space.
proof fn lemma_lit_after_ws_bounds(s: Seq<char>, oi: Option<int>, lit: Seq<char>)
    requires
        oi is Some ==> 0 <= oi->0 <= s.len(),
    ensures
        lit_after_ws(s, oi, lit) is Some ==> (oi is Some && oi->0 <= lit_after_ws(s, oi, lit)->0
            <= s.len()),
{
    if oi is Some {
        lemma_ws_end_bounds(s, oi->0);
    }
}

/// Bounds for a string token expected after blank space.
proof fn lemma_string_after_ws_bounds(s: Seq<char>, oi: Option<int>)
    requires
        oi is Some ==> 0 <= oi->0 <= s.len(),
    ensures
        string_after_ws(s, oi) is Some ==> (oi is Some && oi->0 < (string_after_ws(s, oi)->0).1
            <= s.len()),
{
    if oi is Some {
        lemma_ws_end_bounds(s, oi->0);
        let w = ws_end(s, oi->0);
        if string_after_ws(s, oi) is Some {
            lemma_parse_strchars_bounds(s, w + 1);
        }
    }
}

/// Bounds and well-formedness for a number token expected after blank
/// space.
proof fn lemma_number_after_ws_bounds(s: Seq<char>, oi: Option<int>)
    requires
        oi is Some ==> 0 <= oi->0 <= s.len(),
    ensures
        number_after_ws(s, oi) is Some ==> (oi is Some && oi->0 < (number_after_ws(s, oi)->0).1
            <= s.len() && dec_wf((number_after_ws(s, oi)->0).0)),
{
    if oi is Some {
        lemma_ws_end_bounds(s, oi->0);
        let w = ws_end(s, oi->0);
        if number_after_ws(s, oi) is Some {
            lemma_parse_number_bounds(s, w);
        }
    }
}

/// The remaining array elements after one record: either a closing
/// bracket, or a comma and another record, repeatedly.
pub open spec fn spec_parse_more(s: Seq<char>, i: int) -> Option<(Seq<RecordView>, int)>
    decreases s.len() - i,
        when 0 <= i <= s.len()
        via spec_parse_more_dec
{
    let j = ws_end(s, i);
    if spec_parse_lit(s, j, "]"@) is Some {
        Some((Seq::empty(), spec_parse_lit(s, j, "]"@)->0))
    } else {
        match spec_parse_lit(s, j, ","@) {
            None => None,
            Some(j1) => match spec_parse_record(s, ws_end(s, j1)) {
                None => None,
                Some((r, j2)) => match spec_parse_more(s, j2) {
                    None => None,
                    Some((rest, j3)) => Some((seq![r] + rest, j3)),
                },
            },
        }
    }
}

#[via_fn]
proof fn spec_parse_more_dec(s: Seq<char>, i: int) {
    lemma_ws_end_bounds(s, i);
    let j = ws_end(s, i);
    if !(spec_parse_lit(s, j, "]"@) is Some) {
        if spec_parse_lit(s, j, ","@) is Some {
            reveal_strlit(",");
            let j1 = spec_parse_lit(s, j, ","@)->0;
            lemma_ws_end_bounds(s, j1);
            if spec_parse_record(s, ws_end(s, j1)) is Some {
                lemma_parse_record_bounds(s, ws_end(s, j1));
            }
        }
    }
}

/// The elements of `spec_parse_more` are well formed and the parse moves
/// forward.
pub proof fn lemma_parse_more_bounds(s: Seq<char>, i: int)
    requires
        0 <= i <= s.len(),
        spec_parse_more(s, i) is Some,
    ensures
        i <= (spec_parse_more(s, i)->0).1 <= s.len(),
        forall|k: int|
            0 <= k < (spec_parse_more(s, i)->0).0.len() ==> record_view_wf(
                #[trigger] (spec_parse_more(s, i)->0).0[k],
            ),
    decreases s.len() - i,
{
    lemma_ws_end_bounds(s, i);
    let j = ws_end(s, i);
    if spec_parse_lit(s, j, "]"@) is Some {
    } else {
        reveal_strlit(",");
        let j1 = spec_parse_lit(s, j, ","@)->0;
        lemma_ws_end_bounds(s, j1);
        lemma_parse_record_bounds(s, ws_end(s, j1));
        let j2 = (spec_parse_record(s, ws_end(s, j1))->0).1;
        lemma_parse_more_bounds(s, j2);
    }
}

/// The whole history document: a JSON array of records, with nothing but
/// blank space after it.
pub open spec fn spec_parse_history(s: Seq<char>) -> Option<Seq<RecordView>> {
    let a = ws_end(s, 0);
    match spec_parse_lit(s, a, "["@) {
        None => None,
        Some(i1) => {
            let j = ws_end(s, i1);
            if spec_parse_lit(s, j, "]"@) is Some {
                if ws_end(s, spec_parse_lit(s, j, "]"@)->0) == s.len() {
                    Some(Seq::empty())
                } else {
                    None
                }
            } else {
                match spec_parse_record(s, j) {
                    None => None,
                    Some((r, j2)) => match spec_parse_more(s, j2) {
                        None => None,
                        Some((rest, j3)) => if ws_end(s, j3) == s.len() {
                            Some(seq![r] + rest)
                        } else {
                            None
                        },
                    },
                }
            }
        },
    }
}

/// Parse one record object at position `i`.
fn parse_record_exec(v: &Vec<char>, i: usize) -> (r: Option<(ConversionRecord, usize)>)
    requires
        i <= v@.len(),
    ensures
        match spec_parse_record(v@, i as int) {
            Some((rec, j)) => r matches Some(p) && p.0@ == rec && p.1 as int == j && i < p.1
                <= v@.len(),
            None => r is None,
        },
{
    proof {
        if spec_parse_record(v@, i as int) is Some {
            lemma_parse_record_bounds(v@, i as int);
        }
    }
    let i1 = match parse_lit_exec(v, i, "{") {
        Some(p) => p,
        None => {
            return None;
        },
    };
    let w2 = ws_end_exec(v, i1);
    let i2 = match parse_lit_exec(v, w2, "\"from\"") {
        Some(p) => p,
        None => {
            return None;
        },
    };
    let w3 = ws_end_exec(v, i2);
    let i3 = match parse_lit_exec(v, w3, ":") {
        Some(p) => p,
        None => {
            return None;
        },
    };
    let w4 = ws_end_exec(v, i3);
    let (from, i4) = match parse_json_string_exec(v, w4) {
        Some(p) => p,
        None => {
            return None;
        },
    };
    let w5 = ws_end_exec(v, i4);
    let i5 = match parse_lit_exec(v, w5, ",") {
        Some(p) => p,
        None => {
            return None;
        },
    };
    let w6 = ws_end_exec(v, i5);
    let i6 = match parse_lit_exec(v, w6, "\"to\"") {
        Some(p) => p,
        None => {
            return None;
        },
    };
    let w7 = ws_end_exec(v, i6);
    let i7 = match parse_lit_exec(v, w7, ":") {
        Some(p) => p,
        None => {
            return None;
        },
    };
    let w8 = ws_end_exec(v, i7);
    let (to, i8) = match parse_json_string_exec(v, w8) {
        Some(p) => p,
        None => {
            return None;
        },
    };
    let w9 = ws_end_exec(v, i8);
    let i9 = match parse_lit_exec(v, w9, ",") {
        Some(p) => p,
        None => {
            return None;
        },
    };
    let w10 = ws_end_exec(v, i9);
    let i10 = match parse_lit_exec(v, w10, "\"value\"") {
        Some(p) => p,
        None => {
            return None;
        },
    };
    let w11 = ws_end_exec(v, i10);
    let i11 = match parse_lit_exec(v, w11, ":") {
        Some(p) => p,
        None => {
            return None;
        },
    };
    let w12 = ws_end_exec(v, i11);
    let (value, i12) = match parse_number_exec(v, w12) {
        Some(p) => p,
        None => {
            return None;
        },
    };
    let w13 = ws_end_exec(v, i12);
    let i13 = match parse_lit_exec(v, w13, ",") {
        Some(p) => p,
        None => {
            return None;
        },
    };
    let w14 = ws_end_exec(v, i13);
    let i14 = match parse_lit_exec(v, w14, "\"result\"") {
        Some(p) => p,
        None => {
            return None;
        },
    };
    let w15 = ws_end_exec(v, i14);
    let i15 = match parse_lit_exec(v, w15, ":") {
        Some(p) => p,
        None => {
            return None;
        },
    };
    let w16 = ws_end_exec(v, i15);
    let (result, i16) = match parse_number_exec(v, w16) {
        Some(p) => p,
        None => {
            return None;
        },
    };
    let w17 = ws_end_exec(v, i16);
    let i17 = match parse_lit_exec(v, w17, ",") {
        Some(p) => p,
        None => {
            return None;
        },
    };
    let w18 = ws_end_exec(v, i17);
    let i18 = match parse_lit_exec(v, w18, "\"display_text\"") {
        Some(p) => p,
        None => {
            return None;
        },
    };
    let w19 = ws_end_exec(v, i18);
    let i19 = match parse_lit_exec(v, w19, ":") {
        Some(p) => p,
        None => {
            return None;
        },
    };
    let w20 = ws_end_exec(v, i19);
    let (display_text, i20) = match parse_json_string_exec(v, w20) {
        Some(p) => p,
        None => {
            return None;
        },
    };
    let w21 = ws_end_exec(v, i20);
    let end = match parse_lit_exec(v, w21, "}") {
        Some(p) => p,
        None => {
            return None;
        },
    };
    Some((ConversionRecord { from, to, value, result, display_text }, end))
}

/// Parse a whole history document; `None` when the text is not a history
/// the codec accepts.
fn parse_history_exec(v: &Vec<char>) -> (r: Option<Vec<ConversionRecord>>)
    ensures
        match spec_parse_history(v@) {
            Some(rs) => r matches Some(out) && record_views(out@) == rs,
            None => r is None,
        },
{
    let a = ws_end_exec(v, 0);
    let i1 = match parse_lit_exec(v, a, "[") {
        Some(p) => p,
        None => {
            return None;
        },
    };
    let j = ws_end_exec(v, i1);
    if let Some(endb) = parse_lit_exec(v, j, "]") {
        let tail = ws_end_exec(v, endb);
        if tail == v.len() {
            let out: Vec<ConversionRecord> = Vec::new();
            proof {
                assert(record_views(out@) =~= Seq::<RecordView>::empty());
            }
            return Some(out);
        } else {
            return None;
        }
    }
    let (first, j2) = match parse_record_exec(v, j) {
        Some(p) => p,
        None => {
            return None;
        },
    };
    let mut out: Vec<ConversionRecord> = Vec::new();
    out.push(first);
    let mut cur = j2;
    loop
        invariant
            cur <= v@.len(),
            out@.len() >= 1,
            spec_parse_history(v@) == (match spec_parse_more(v@, cur as int) {
                Some((rest, j3)) => if ws_end(v@, j3) == v@.len() {
                    Some(record_views(out@) + rest)
                } else {
                    None::<Seq<RecordView>>
                },
                None => None::<Seq<RecordView>>,
            }),
        decreases v@.len() - cur,
    {
        let w = ws_end_exec(v, cur);
        if let Some(endb) = parse_lit_exec(v, w, "]") {
            proof {
                assert(spec_parse_more(v@, cur as int) == Some(
                    (Seq::<RecordView>::empty(), endb as int),
                ));
            }
            let tail = ws_end_exec(v, endb);
            if tail == v.len() {
                proof {
                    assert(record_views(out@) + Seq::<RecordView>::empty() =~= record_views(
                        out@,
                    ));
                }
                return Some(out);
            } else {
                return None;
            }
        }
        let j1 = match parse_lit_exec(v, w, ",") {
            Some(p) => p,
            None => {
                return None;
            },
        };
        let wr = ws_end_exec(v, j1);
        let (rec, j2n) = match parse_record_exec(v, wr) {
            Some(p) => p,
            None => {
                return None;
            },
        };
        proof {
            let (r0, _jj) = spec_parse_record(v@, wr as int)->0;
            if spec_parse_more(v@, j2n as int) is Some {
                let (rest, j3) = spec_parse_more(v@, j2n as int)->0;
                assert(record_views(out@.push(rec)) =~= record_views(out@).push(r0));
                assert(record_views(out@).push(r0) + rest =~= record_views(out@) + (seq![r0]
                    + rest));
            }
        }
        out.push(rec);
        cur = j2n;
    }
}

/// Deserialize a history document.  A text the codec does not accept is
/// an empty history: the store favours availability over strictness.
pub fn history_from_text(text: &str) -> (r: Vec<ConversionRecord>)
    ensures
        match spec_parse_history(text@) {
            Some(rs) => record_views(r@) == rs,
            None => r@.len() == 0,
        },
        forall|k: int| 0 <= k < r@.len() ==> record_wf(#[trigger] r@[k]),
{
    let v = str_chars(text);
    let parsed = parse_history_exec(&v);
    proof {
        if spec_parse_history(text@) is Some {
            lemma_parse_history_wf(text@);
        }
    }
    match parsed {
        Some(out) => {
            proof {
                assert(forall|k: int|
                    0 <= k < out@.len() ==> record_views(out@)[k] == #[trigger] out@[k]@);
            }
            out
        },
        None => Vec::new(),
    }
}

/// What a stored text denotes: the parsed records, or no records at all
/// when the file is absent (`None`) or holds anything the codec does not
/// accept.
pub open spec fn spec_loaded(content: Option<Seq<char>>) -> Seq<RecordView> {
    match content {
        None => Seq::empty(),
        Some(t) => match spec_parse_history(t) {
            Some(rs) => rs,
            None => Seq::empty(),
        },
    }
}

/// Load the history from the stored text.
///
/// A missing file (`None`) is an empty history, never an error; so is a
/// text that is not a history document — the lenient read the store
/// promises.
pub fn load_from_text(content: Option<&str>) -> (r: Vec<ConversionRecord>)
    ensures
        content is None ==> r@.len() == 0,
        record_views(r@) == spec_loaded(match content {
            Some(t) => Some(t@),
            None => None::<Seq<char>>,
        }),
        forall|k: int| 0 <= k < r@.len() ==> record_wf(#[trigger] r@[k]),
{
    match content {
        None => {
            let r: Vec<ConversionRecord> = Vec::new();
            proof {
                assert(record_views(r@) =~= Seq::<RecordView>::empty());
            }
            r
        },
        Some(t) => {
            let r = history_from_text(t);
            proof {
                if spec_parse_history(t@) is None {
                    assert(record_views(r@) =~= Seq::<RecordView>::empty());
                }
            }
            r
        },
    }
}

/// The compute half of an append: load whatever the stored text denotes,
/// add the record at the end, and render the whole document anew.  The
/// caller overwrites the file with the result.
pub fn appended_history_text(content: Option<&str>, record: ConversionRecord) -> (s: String)
    requires
        record_wf(record),
    ensures
        s@ == spec_render_history(
            spec_loaded(
                match content {
                    Some(t) => Some(t@),
                    None => None::<Seq<char>>,
                },
            ).push(record@),
        ),
{
    let ghost old_views = spec_loaded(
        match content {
            Some(t) => Some(t@),
            None => None::<Seq<char>>,
        },
    );
    let mut records = load_from_text(content);
    proof {
        assert(record_views(records@.push(record)) =~= record_views(records@).push(record@));
    }
    records.push(record);
    history_to_text(&records)
}

/// One numbered line per record, or the fixed empty-history message.
pub open spec fn spec_listing_lines(rs: Seq<RecordView>, k: nat) -> Seq<char>
    recommends
        k <= rs.len(),
    decreases k,
{
    if k == 0 {
        "Riwayat Konversi:"@
    } else {
        spec_listing_lines(rs, (k - 1) as nat) + "\n"@ + dec_digits(k) + ". "@ + rs[k - 1].display_text
    }
}

/// The printed form of a history: a header and one numbered line per
/// record, or the fixed empty-history message.
pub open spec fn spec_history_listing(rs: Seq<RecordView>) -> Seq<char> {
    if rs.len() == 0 {
        "Riwayat kosong."@
    } else {
        spec_listing_lines(rs, rs.len())
    }
}

/// Format the history for display.
pub fn history_listing(records: &Vec<ConversionRecord>) -> (s: String)
    ensures
        s@ == spec_history_listing(record_views(records@)),
{
    let ghost views = record_views(records@);
    if records.len() == 0 {
        return String::from_str("Riwayat kosong.");
    }
    let mut s = String::from_str("Riwayat Konversi:");
    let mut i: usize = 0;
    while i < records.len()
        invariant
            views == record_views(records@),
            i <= records@.len(),
            records@.len() >= 1,
            records@.len() <= usize::MAX,
            s@ == spec_listing_lines(views, i as nat),
        decreases records@.len() - i,
    {
        s.append("\n");
        let idx = digits_string((i as u128) + 1);
        s.append(idx.as_str());
        s.append(". ");
        s.append(records[i].display_text.as_str());
        proof {
            assert(s@ =~= spec_listing_lines(views, (i + 1) as nat));
        }
        i = i + 1;
    }
    s
}

/// One field segment of a rendered record, as the parser walks it: a
/// comma, an indented key, a colon and one space, each token preceded by
/// exactly the blank space the renderer wrote.
proof fn lemma_field_segment(s: Seq<char>, q: int, seg: Seq<char>, key: Seq<char>)
    requires
        0 <= q,
        seq_contains_at(s, seg, q),
        seg.len() == 8 + key.len(),
        seg[0] == ',',
        seg[1] == '\n',
        seg[2] == ' ',
        seg[3] == ' ',
        seg[4] == ' ',
        seg[5] == ' ',
        key == seg.subrange(6, 6 + key.len() as int),
        seg[6 + key.len() as int] == ':',
        seg[7 + key.len() as int] == ' ',
        key.len() >= 1,
        key[0] == '"',
        q + seg.len() < s.len(),
        !is_ws(s[q + seg.len()]),
    ensures
        ws_end(s, q) == q,
        spec_parse_lit(s, q, ","@) == Some(q + 1),
        ws_end(s, q + 1) == q + 6,
        spec_parse_lit(s, q + 6, key) == Some(q + 6 + key.len()),
        ws_end(s, q + 6 + key.len()) == q + 6 + key.len(),
        spec_parse_lit(s, q + 6 + key.len(), ":"@) == Some(q + 7 + key.len()),
        ws_end(s, q + 7 + key.len()) == q + seg.len(),
{
    reveal_strlit(",");
    reveal_strlit(":");
    lemma_contains_char_at(s, seg, q, 0);
    lemma_contains_char_at(s, seg, q, 1);
    lemma_contains_char_at(s, seg, q, 2);
    lemma_contains_char_at(s, seg, q, 3);
    lemma_contains_char_at(s, seg, q, 4);
    lemma_contains_char_at(s, seg, q, 5);
    lemma_contains_char_at(s, seg, q, 6);
    lemma_contains_char_at(s, seg, q, 6 + key.len() as int);
    lemma_contains_char_at(s, seg, q, 7 + key.len() as int);
    lemma_ws_end_at(s, q, q);
    assert(","@ =~= seg.subrange(0, 1));
    lemma_contains_within(s, seg, q, 0, ","@);
    lemma_parse_lit_at(s, q, ","@);
    assert(s[q + 6] == key[0]) by {
        assert(seg.subrange(6, 6 + key.len() as int)[0] == seg[6]);
    }
    assert(!is_ws('"'));
    lemma_ws_end_at(s, q + 1, q + 6);
    lemma_contains_within(s, seg, q, 6, key);
    lemma_parse_lit_at(s, q + 6, key);
    lemma_ws_end_at(s, q + 6 + key.len() as int, q + 6 + key.len() as int);
    assert(":"@ =~= seg.subrange(6 + key.len() as int, 7 + key.len() as int));
    lemma_contains_within(s, seg, q, 6 + key.len() as int, ":"@);
    lemma_parse_lit_at(s, q + 6 + key.len() as int, ":"@);
    lemma_ws_end_at(s, q + 7 + key.len() as int, q + seg.len() as int);
}

/// The first character of a rendered number is never blank space.
proof fn lemma_number_head_not_ws(s: Seq<char>, p: int, d: Dec)
    requires
        0 <= p,
        seq_contains_at(s, spec_render_dec(d), p),
    ensures
        !is_ws(s[p]),
        s.len() > p,
{
    let a = (if d.mant < 0 {
        -d.mant
    } else {
        d.mant as int
    }) as nat;
    lemma_dec_digits_props(a / crate::domain::num::pow10(d.scale as nat));
    lemma_dec_digits_props(a);
    if d.mant < 0 {
        lemma_contains_char_at(s, spec_render_dec(d), p, 0);
        assert(spec_render_dec(d)[0] == '-');
    } else {
        lemma_contains_char_at(s, spec_render_dec(d), p, 0);
        if d.scale == 0 {
            assert(spec_render_dec(d)[0] == dec_digits(a)[0]);
            assert(is_digit_char(spec_render_dec(d)[0]));
        } else {
            let ds = dec_digits(a / crate::domain::num::pow10(d.scale as nat));
            assert(spec_render_dec(d)[0] == ds[0]);
            assert(is_digit_char(spec_render_dec(d)[0]));
        }
    }
}

/// A record written by the renderer reads back as the same record.
#[verifier::rlimit(100)]
proof fn lemma_parse_record_round(s: Seq<char>, i: int, r: RecordView)
    requires
        0 <= i,
        record_view_wf(r),
        seq_contains_at(s, spec_render_record(r), i),
    ensures
        spec_parse_record(s, i) == Some((r, i + spec_render_record(r).len())),
{
    reveal_strlit("{");
    reveal_strlit("}");
    reveal_strlit(",");
    reveal_strlit(":");
    reveal_strlit("{\n    \"from\": ");
    reveal_strlit(",\n    \"to\": ");
    reveal_strlit(",\n    \"value\": ");
    reveal_strlit(",\n    \"result\": ");
    reveal_strlit(",\n    \"display_text\": ");
    reveal_strlit("\n  }");
    reveal_strlit("\"from\"");
    reveal_strlit("\"to\"");
    reveal_strlit("\"value\"");
    reveal_strlit("\"result\"");
    reveal_strlit("\"display_text\"");
    let l1 = "{\n    \"from\": "@;
    let l2 = ",\n    \"to\": "@;
    let l3 = ",\n    \"value\": "@;
    let l4 = ",\n    \"result\": "@;
    let l5 = ",\n    \"display_text\": "@;
    let l6 = "\n  }"@;
    let jf = spec_json_string(r.from);
    let jt = spec_json_string(r.to);
    let nv = spec_render_dec(r.value);
    let nr = spec_render_dec(r.result);
    let jd = spec_json_string(r.display_text);
    let rr = spec_render_record(r);
    assert(rr == l1 + jf + l2 + jt + l3 + nv + l4 + nr + l5 + jd + l6);
    // Peel the concatenation apart, one part at a time.
    lemma_contains_split(s, l1 + jf + l2 + jt + l3 + nv + l4 + nr + l5 + jd, l6, i);
    lemma_contains_split(s, l1 + jf + l2 + jt + l3 + nv + l4 + nr + l5, jd, i);
    lemma_contains_split(s, l1 + jf + l2 + jt + l3 + nv + l4 + nr, l5, i);
    lemma_contains_split(s, l1 + jf + l2 + jt + l3 + nv + l4, nr, i);
    lemma_contains_split(s, l1 + jf + l2 + jt + l3 + nv, l4, i);
    lemma_contains_split(s, l1 + jf + l2 + jt + l3, nv, i);
    lemma_contains_split(s, l1 + jf + l2 + jt, l3, i);
    lemma_contains_split(s, l1 + jf + l2, jt, i);
    lemma_contains_split(s, l1 + jf, l2, i);
    lemma_contains_split(s, l1, jf, i);
    let p1 = i + l1.len();
    let q1 = p1 + jf.len();
    let p2 = q1 + l2.len();
    let q2 = p2 + jt.len();
    let p3 = q2 + l3.len();
    let q3 = p3 + nv.len();
    let p4 = q3 + l4.len();
    let q4 = p4 + nr.len();
    let p5 = q4 + l5.len();
    let q5 = p5 + jd.len();
    // The opening of the object and its first key.
    lemma_contains_char_at(s, l1, i, 0);
    lemma_contains_char_at(s, l1, i, 1);
    lemma_contains_char_at(s, l1, i, 2);
    lemma_contains_char_at(s, l1, i, 3);
    lemma_contains_char_at(s, l1, i, 4);
    lemma_contains_char_at(s, l1, i, 5);
    lemma_contains_char_at(s, l1, i, 6);
    lemma_contains_char_at(s, l1, i, 12);
    lemma_contains_char_at(s, l1, i, 13);
    assert("{"@ =~= l1.subrange(0, 1));
    lemma_contains_within(s, l1, i, 0, "{"@);
    lemma_parse_lit_at(s, i, "{"@);
    assert("\"from\""@ =~= l1.subrange(6, 12));
    lemma_contains_within(s, l1, i, 6, "\"from\""@);
    lemma_parse_lit_at(s, i + 6, "\"from\""@);
    lemma_ws_end_at(s, i + 1, i + 6);
    lemma_ws_end_at(s, i + 12, i + 12);
    assert(":"@ =~= l1.subrange(12, 13));
    lemma_contains_within(s, l1, i, 12, ":"@);
    lemma_parse_lit_at(s, i + 12, ":"@);
    lemma_contains_char_at(s, jf, p1, 0);
    assert(s[p1] == '"');
    lemma_ws_end_at(s, i + 13, p1);
    lemma_parse_json_string_round(s, p1, r.from);
    // The "to" field.
    lemma_contains_char_at(s, l2, q1, 0);
    assert("\"to\""@ =~= l2.subrange(6, 10));
    lemma_contains_char_at(s, jt, p2, 0);
    assert(s[p2] == '"');
    lemma_field_segment(s, q1, l2, "\"to\""@);
    lemma_parse_json_string_round(s, p2, r.to);
    // The "value" field.
    lemma_number_head_not_ws(s, p3, r.value);
    assert("\"value\""@ =~= l3.subrange(6, 13));
    lemma_field_segment(s, q2, l3, "\"value\""@);
    lemma_contains_char_at(s, l4, q3, 0);
    assert(s[q3] == ',');
    lemma_parse_number_round(s, p3, r.value);
    // The "result" field.
    lemma_number_head_not_ws(s, p4, r.result);
    assert("\"result\""@ =~= l4.subrange(6, 14));
    lemma_field_segment(s, q3, l4, "\"result\""@);
    lemma_contains_char_at(s, l5, q4, 0);
    assert(s[q4] == ',');
    lemma_parse_number_round(s, p4, r.result);
    // The "display_text" field and the closing brace.
    lemma_contains_char_at(s, jd, p5, 0);
    assert(s[p5] == '"');
    assert("\"display_text\""@ =~= l5.subrange(6, 20));
    lemma_field_segment(s, q4, l5, "\"display_text\""@);
    lemma_parse_json_string_round(s, p5, r.display_text);
    lemma_contains_char_at(s, l6, q5, 0);
    lemma_contains_char_at(s, l6, q5, 1);
    lemma_contains_char_at(s, l6, q5, 2);
    lemma_contains_char_at(s, l6, q5, 3);
    lemma_ws_end_at(s, q5, q5 + 3);
    assert("}"@ =~= l6.subrange(3, 4));
    lemma_contains_within(s, l6, q5, 3, "}"@);
    lemma_parse_lit_at(s, q5 + 3, "}"@);
    assert(spec_parse_record(s, i) == Some((r, q5 + 4)));
}

/// The array elements after the first record, written left to right:
/// a comma-newline-indent separator before each further record.
pub open spec fn spec_render_rest(ts: Seq<RecordView>) -> Seq<char>
    decreases ts.len(),
{
    if ts.len() == 0 {
        Seq::empty()
    } else {
        ",\n  "@ + spec_render_record(ts[0]) + spec_render_rest(ts.drop_first())
    }
}

/// Appending one record appends one separated rendering.
proof fn lemma_rest_snoc(ts: Seq<RecordView>, r: RecordView)
    ensures
        spec_render_rest(ts.push(r)) == spec_render_rest(ts) + ",\n  "@ + spec_render_record(r),
    decreases ts.len(),
{
    if ts.len() == 0 {
        let e = Seq::<RecordView>::empty();
        assert(ts.push(r).drop_first() =~= e);
        assert(ts.push(r)[0] == r);
        assert(spec_render_rest(e) == Seq::<char>::empty());
        assert(spec_render_rest(ts.push(r)) == ",\n  "@ + spec_render_record(r)
            + spec_render_rest(e));
        assert(spec_render_rest(ts.push(r)) =~= spec_render_rest(ts) + ",\n  "@
            + spec_render_record(r));
    } else {
        lemma_rest_snoc(ts.drop_first(), r);
        assert(ts.push(r).drop_first() =~= ts.drop_first().push(r));
        assert(ts.push(r)[0] == ts[0]);
        assert(spec_render_rest(ts.push(r)) == ",\n  "@ + spec_render_record(ts[0])
            + spec_render_rest(ts.drop_first().push(r)));
        assert(spec_render_rest(ts) == ",\n  "@ + spec_render_record(ts[0]) + spec_render_rest(
            ts.drop_first(),
        ));
        assert(spec_render_rest(ts.push(r)) =~= spec_render_rest(ts) + ",\n  "@
            + spec_render_record(r));
    }
}

/// The right-recursive rendering of the array elements, read from the
/// left: the first record, then the separated rest.
proof fn lemma_items_left(rs: Seq<RecordView>)
    requires
        rs.len() >= 1,
    ensures
        spec_render_items(rs) == "  "@ + spec_render_record(rs[0]) + spec_render_rest(
            rs.drop_first(),
        ),
    decreases rs.len(),
{
    if rs.len() == 1 {
        assert(rs.drop_first() =~= Seq::<RecordView>::empty());
        assert(spec_render_items(rs) =~= "  "@ + spec_render_record(rs[0]) + spec_render_rest(
            rs.drop_first(),
        ));
    } else {
        let dl = rs.drop_last();
        lemma_items_left(dl);
        lemma_rest_snoc(dl.drop_first(), rs.last());
        assert(dl[0] == rs[0]);
        assert(dl.drop_first().push(rs.last()) =~= rs.drop_first());
        assert(spec_render_items(rs) =~= "  "@ + spec_render_record(rs[0]) + spec_render_rest(
            rs.drop_first(),
        ));
    }
}

/// The tail of a rendered array parses back to exactly its records.
#[verifier::rlimit(100)]
proof fn lemma_parse_more_round(s: Seq<char>, i: int, ts: Seq<RecordView>)
    requires
        0 <= i,
        forall|k: int| 0 <= k < ts.len() ==> record_view_wf(#[trigger] ts[k]),
        seq_contains_at(s, spec_render_rest(ts) + "\n]"@, i),
    ensures
        spec_parse_more(s, i) == Some((ts, i + spec_render_rest(ts).len() + 2)),
    decreases ts.len(),
{
    reveal_strlit("\n]");
    reveal_strlit("]");
    reveal_strlit(",");
    reveal_strlit(",\n  ");
    if ts.len() == 0 {
        let t = "\n]"@;
        assert(spec_render_rest(ts) + t =~= t);
        lemma_contains_char_at(s, t, i, 0);
        lemma_contains_char_at(s, t, i, 1);
        assert(s[i] == '\n' && s[i + 1] == ']');
        lemma_ws_end_at(s, i, i + 1);
        assert("]"@ =~= t.subrange(1, 2));
        lemma_contains_within(s, t, i, 1, "]"@);
        lemma_parse_lit_at(s, i + 1, "]"@);
    } else {
        let sep = ",\n  "@;
        let rec0 = spec_render_record(ts[0]);
        let rest1 = spec_render_rest(ts.drop_first());
        assert(spec_render_rest(ts) == sep + rec0 + rest1);
        lemma_contains_split(s, sep + rec0 + rest1, "\n]"@, i);
        lemma_contains_split(s, sep + rec0, rest1, i);
        lemma_contains_split(s, sep, rec0, i);
        let j2 = i + 4 + rec0.len() as int;
        lemma_contains_join(s, rest1, "\n]"@, j2);
        lemma_contains_char_at(s, sep, i, 0);
        lemma_contains_char_at(s, sep, i, 1);
        lemma_contains_char_at(s, sep, i, 2);
        lemma_contains_char_at(s, sep, i, 3);
        assert(s[i] == ',');
        lemma_ws_end_at(s, i, i);
        lemma_parse_lit_mismatch(s, i, "]"@);
        assert(","@ =~= sep.subrange(0, 1));
        lemma_contains_within(s, sep, i, 0, ","@);
        lemma_parse_lit_at(s, i, ","@);
        lemma_contains_char_at(s, rec0, i + 4, 0);
        reveal_strlit("{\n    \"from\": ");
        assert(rec0[0] == '{') by {
            let l1 = "{\n    \"from\": "@;
            assert(rec0[0] == l1[0]);
        }
        assert(s[i + 4] == '{');
        lemma_ws_end_at(s, i + 1, i + 4);
        lemma_parse_record_round(s, i + 4, ts[0]);
        lemma_parse_more_round(s, j2, ts.drop_first());
        assert(seq![ts[0]] + ts.drop_first() =~= ts);
    }
}

/// Law: the history codec round-trips.  Parsing the rendered document of
/// any sequence of well-formed records yields exactly that sequence.
pub proof fn lemma_history_round_trip(rs: Seq<RecordView>)
    requires
        forall|k: int| 0 <= k < rs.len() ==> record_view_wf(#[trigger] rs[k]),
    ensures
        spec_parse_history(spec_render_history(rs)) == Some(rs),
{
    if rs.len() == 0 {
        lemma_history_round_trip_empty(rs);
    } else {
        lemma_history_round_trip_some(rs);
    }
}

proof fn lemma_history_round_trip_empty(rs: Seq<RecordView>)
    requires
        rs.len() == 0,
    ensures
        spec_parse_history(spec_render_history(rs)) == Some(rs),
{
    let s = spec_render_history(rs);
    assert(seq_contains_at(s, s, 0)) by {
        assert(s.subrange(0, s.len() as int) =~= s);
    }
    reveal_strlit("[]");
    reveal_strlit("[");
    reveal_strlit("]");
    lemma_contains_char_at(s, s, 0, 0);
    lemma_contains_char_at(s, s, 0, 1);
    assert(s[0] == '[' && s[1] == ']');
    lemma_ws_end_at(s, 0, 0);
    assert("["@ =~= s.subrange(0, 1));
    lemma_contains_within(s, s, 0, 0, "["@);
    lemma_parse_lit_at(s, 0, "["@);
    lemma_ws_end_at(s, 1, 1);
    assert("]"@ =~= s.subrange(1, 2));
    lemma_contains_within(s, s, 0, 1, "]"@);
    lemma_parse_lit_at(s, 1, "]"@);
    lemma_ws_end_at(s, 2, 2);
    assert(spec_parse_history(s) == Some(Seq::<RecordView>::empty()));
    assert(Seq::<RecordView>::empty() =~= rs);
}

#[verifier::rlimit(100)]
proof fn lemma_history_round_trip_some(rs: Seq<RecordView>)
    requires
        rs.len() >= 1,
        forall|k: int| 0 <= k < rs.len() ==> record_view_wf(#[trigger] rs[k]),
    ensures
        spec_parse_history(spec_render_history(rs)) == Some(rs),
{
    let s = spec_render_history(rs);
    assert(seq_contains_at(s, s, 0)) by {
        assert(s.subrange(0, s.len() as int) =~= s);
    }
    reveal_strlit("[");
    reveal_strlit("]");
    reveal_strlit("[\n");
    reveal_strlit("\n]");
    reveal_strlit("  ");
    lemma_items_left(rs);
    let rec0 = spec_render_record(rs[0]);
    let rest1 = spec_render_rest(rs.drop_first());
    let items = spec_render_items(rs);
    assert(s == "[\n"@ + items + "\n]"@);
    lemma_contains_split(s, "[\n"@ + items, "\n]"@, 0);
    lemma_contains_split(s, "[\n"@, items, 0);
    assert(items == "  "@ + rec0 + rest1);
    lemma_contains_split(s, "  "@ + rec0, rest1, 2);
    lemma_contains_split(s, "  "@, rec0, 2);
    let j2 = 4 + rec0.len() as int;
    assert(seq_contains_at(s, rest1, j2));
    assert(seq_contains_at(s, "\n]"@, j2 + rest1.len()));
    lemma_contains_join(s, rest1, "\n]"@, j2);
    lemma_contains_char_at(s, "[\n"@, 0, 0);
    lemma_contains_char_at(s, "[\n"@, 0, 1);
    lemma_contains_char_at(s, "  "@, 2, 0);
    lemma_contains_char_at(s, "  "@, 2, 1);
    lemma_contains_char_at(s, rec0, 4, 0);
    reveal_strlit("{\n    \"from\": ");
    assert(rec0[0] == '{') by {
        let l1 = "{\n    \"from\": "@;
        assert(rec0[0] == l1[0]);
    }
    assert(s[0] == '[' && s[1] == '\n' && s[2] == ' ' && s[3] == ' ' && s[4] == '{');
    lemma_ws_end_at(s, 0, 0);
    assert("["@ =~= s.subrange(0, 1));
    lemma_contains_within(s, s, 0, 0, "["@);
    lemma_parse_lit_at(s, 0, "["@);
    lemma_ws_end_at(s, 1, 4);
    lemma_parse_lit_mismatch(s, 4, "]"@);
    lemma_parse_record_round(s, 4, rs[0]);
    lemma_parse_more_round(s, j2, rs.drop_first());
    let j3 = j2 + rest1.len() as int + 2;
    assert(j3 == s.len());
    lemma_ws_end_at(s, j3, j3);
    assert(seq![rs[0]] + rs.drop_first() =~= rs);
}

/// Law: appending a record and loading the document back yields the old
/// history with exactly that record at the end — one element longer, the
/// last element structurally equal to what was appended.
pub proof fn lemma_append_then_load(rs: Seq<RecordView>, r: RecordView)
    requires
        forall|k: int| 0 <= k < rs.len() ==> record_view_wf(#[trigger] rs[k]),
        record_view_wf(r),
    ensures
        spec_parse_history(spec_render_history(rs.push(r))) == Some(rs.push(r)),
        rs.push(r).len() == rs.len() + 1,
        rs.push(r).last() == r,
        rs.push(r).drop_last() == rs,
{
    assert(forall|k: int| 0 <= k < rs.push(r).len() ==> record_view_wf(#[trigger] rs.push(r)[k]));
    lemma_history_round_trip(rs.push(r));
    assert(rs.push(r).drop_last() =~= rs);
}

/// Everything a history parse returns is well formed.
proof fn lemma_parse_history_wf(s: Seq<char>)
    requires
        spec_parse_history(s) is Some,
    ensures
        forall|k: int|
            0 <= k < spec_parse_history(s)->0.len() ==> record_view_wf(
                #[trigger] spec_parse_history(s)->0[k],
            ),
{
    let a = ws_end(s, 0);
    lemma_ws_end_bounds(s, 0);
    let i1 = spec_parse_lit(s, a, "["@)->0;
    let j = ws_end(s, i1);
    lemma_ws_end_bounds(s, i1);
    if spec_parse_lit(s, j, "]"@) is Some {
    } else {
        lemma_parse_record_bounds(s, j);
        let j2 = (spec_parse_record(s, j)->0).1;
        lemma_parse_more_bounds(s, j2);
    }
}

} // verus!
