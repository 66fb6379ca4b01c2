//! Rendering parse outcomes: the JSON object and the human-readable report.

use vstd::prelude::*;
use crate::address::{
    AddressView, OutcomeView, ParseOutcome, ParsedAddress, outcome_views, string_views, zip_text,
};
use crate::text::{chars_of, extend, join, string_of};

verus! {

/// Lower-case hexadecimal digits.
pub open spec fn hex_digits() -> Seq<char> {
    seq!['0', '1', '2', '3', '4', '5', '6', '7', '8', '9', 'a', 'b', 'c', 'd', 'e', 'f']
}

/// How one character appears inside a JSON string literal.
pub open spec fn json_escape_char(c: char) -> Seq<char> {
    if c == '"' {
        seq!['\\', '"']
    } else if c == '\\' {
        seq!['\\', '\\']
    } else if c == '\n' {
        seq!['\\', 'n']
    } else if c == '\r' {
        seq!['\\', 'r']
    } else if c == '\t' {
        seq!['\\', 't']
    } else if (c as u32) < 0x20 {
        seq!['\\', 'u', '0', '0', hex_digits()[((c as u32) / 16) as int], hex_digits()[((c as u32) % 16) as int]]
    } else {
        seq![c]
    }
}

pub open spec fn json_escape(s: Seq<char>) -> Seq<char>
    decreases s.len(),
{
    if s.len() == 0 {
        Seq::empty()
    } else {
        json_escape(s.drop_last()) + json_escape_char(s.last())
    }
}

/// `s` as a JSON string literal.
pub open spec fn json_quote(s: Seq<char>) -> Seq<char> {
    seq!['"'] + json_escape(s) + seq!['"']
}

pub open spec fn json_opt(o: Option<Seq<char>>) -> Seq<char> {
    match o {
        Some(s) => json_quote(s),
        None => "null"@,
    }
}

pub open spec fn json_address(a: AddressView) -> Seq<char> {
    "{\"street\":"@ + json_quote(a.street) + ",\"city\":"@ + json_quote(a.city) + ",\"state\":"@
        + json_quote(a.state) + ",\"zip5\":"@ + json_quote(a.zip5) + ",\"zip4\":"@ + json_opt(
        a.zip4,
    ) + ",\"po_box\":"@ + json_opt(a.po_box) + "}"@
}

pub open spec fn is_valid_view(o: OutcomeView) -> bool {
    o.errors.len() == 0 && o.address is Some
}

/// The JSON object for one outcome.
pub open spec fn json_outcome(o: OutcomeView) -> Seq<char> {
    "{\"input\":"@ + json_quote(o.input) + ",\"valid\":"@ + (if is_valid_view(o) {
        "true"@
    } else {
        "false"@
    }) + ",\"address\":"@ + match o.address {
        Some(a) => json_address(a),
        None => "null"@,
    } + ",\"errors\":["@ + join(o.errors.map_values(|e: Seq<char>| json_quote(e)), ","@) + "]}"@
}

/// A JSON array of the outcomes' objects.
pub open spec fn json_array(os: Seq<OutcomeView>) -> Seq<char> {
    "["@ + join(os.map_values(|o: OutcomeView| json_outcome(o)), ","@) + "]"@
}

fn push_str(v: &mut Vec<char>, s: &str)
    ensures
        final(v)@ == old(v)@ + s@,
{
    let c = chars_of(s);
    extend(v, &c);
}

fn escape_char(v: &mut Vec<char>, c: char)
    ensures
        final(v)@ == old(v)@ + json_escape_char(c),
{
    let hex: [char; 16] = [
        '0', '1', '2', '3', '4', '5', '6', '7', '8', '9', 'a', 'b', 'c', 'd', 'e', 'f',
    ];
    assert(hex@ =~= hex_digits());
    if c == '"' {
        v.push('\\');
        v.push('"');
    } else if c == '\\' {
        v.push('\\');
        v.push('\\');
    } else if c == '\n' {
        v.push('\\');
        v.push('n');
    } else if c == '\r' {
        v.push('\\');
        v.push('r');
    } else if c == '\t' {
        v.push('\\');
        v.push('t');
    } else if (c as u32) < 0x20 {
        let x = c as u32;
        v.push('\\');
        v.push('u');
        v.push('0');
        v.push('0');
        v.push(hex[(x / 16) as usize]);
        v.push(hex[(x % 16) as usize]);
    } else {
        v.push(c);
    }
    assert(final(v)@ =~= old(v)@ + json_escape_char(c));
}

fn quote_into(v: &mut Vec<char>, s: &Vec<char>)
    ensures
        final(v)@ == old(v)@ + json_quote(s@),
{
    let ghost start = v@;
    v.push('"');
    for i in 0..s.len()
        invariant
            v@ == start + seq!['"'] + json_escape(s@.take(i as int)),
    {
        assert(s@.take(i + 1).drop_last() =~= s@.take(i as int));
        escape_char(v, s[i]);
        assert(v@ =~= start + seq!['"'] + json_escape(s@.take(i + 1)));
    }
    assert(s@.take(s.len() as int) == s@);
    v.push('"');
    assert(v@ =~= start + json_quote(s@));
}

/// `s` as a JSON string literal: quotes, backslashes and control characters
/// escaped.
pub fn json_string(s: &str) -> (r: String)
    ensures
        r@ == json_quote(s@),
{
    let c = chars_of(s);
    let mut v: Vec<char> = Vec::new();
    quote_into(&mut v, &c);
    assert(v@ =~= json_quote(s@));
    string_of(&v)
}

fn quote_string_into(v: &mut Vec<char>, s: &String)
    ensures
        final(v)@ == old(v)@ + json_quote(s@),
{
    let c = chars_of(s.as_str());
    quote_into(v, &c);
}

fn opt_into(v: &mut Vec<char>, o: &Option<String>)
    ensures
        final(v)@ == old(v)@ + json_opt(crate::address::opt_view(*o)),
{
    match o {
        Some(s) => quote_string_into(v, s),
        None => push_str(v, "null"),
    }
}

fn address_into(v: &mut Vec<char>, a: &ParsedAddress)
    ensures
        final(v)@ == old(v)@ + json_address(a@),
{
    let ghost start = v@;
    push_str(v, "{\"street\":");
    quote_string_into(v, &a.street);
    push_str(v, ",\"city\":");
    quote_string_into(v, &a.city);
    push_str(v, ",\"state\":");
    quote_string_into(v, &a.state);
    push_str(v, ",\"zip5\":");
    quote_string_into(v, &a.zip5);
    push_str(v, ",\"zip4\":");
    opt_into(v, &a.zip4);
    push_str(v, ",\"po_box\":");
    opt_into(v, &a.po_box);
    push_str(v, "}");
    assert(v@ =~= start + json_address(a@));
}

fn quoted_list_into(v: &mut Vec<char>, items: &Vec<String>)
    ensures
        final(v)@ == old(v)@ + join(
            string_views(items@).map_values(|e: Seq<char>| json_quote(e)),
            ","@,
        ),
{
    let ghost before = v@;
    let ghost qs = string_views(items@).map_values(|e: Seq<char>| json_quote(e));
    for i in 0..items.len()
        invariant
            qs == string_views(items@).map_values(|e: Seq<char>| json_quote(e)),
            qs.len() == items.len(),
            v@ == before + join(qs.take(i as int), ","@),
    {
        assert(qs.take(i + 1).drop_last() =~= qs.take(i as int));
        assert(qs[i as int] == json_quote(items@[i as int]@));
        if i > 0 {
            push_str(v, ",");
        }
        quote_string_into(v, &items[i]);
        assert(v@ =~= before + join(qs.take(i + 1), ","@));
    }
    assert(qs.take(items.len() as int) == qs);
}

fn outcome_into(v: &mut Vec<char>, o: &ParseOutcome)
    ensures
        final(v)@ == old(v)@ + json_outcome(o@),
{
    let ghost start = v@;
    push_str(v, "{\"input\":");
    quote_string_into(v, &o.input);
    push_str(v, ",\"valid\":");
    let ghost p1 = v@;
    let valid = o.is_valid();
    if valid {
        push_str(v, "true");
    } else {
        push_str(v, "false");
    }
    let ghost p2 = v@;
    push_str(v, ",\"address\":");
    let ghost p3 = v@;
    match &o.address {
        Some(a) => address_into(v, a),
        None => push_str(v, "null"),
    }
    let ghost p4 = v@;
    push_str(v, ",\"errors\":[");
    quoted_list_into(v, &o.errors);
    push_str(v, "]}");
    let ghost addr = match o@.address {
        Some(a) => json_address(a),
        None => "null"@,
    };
    let ghost verdict = if is_valid_view(o@) {
        "true"@
    } else {
        "false"@
    };
    assert(p2 == p1 + verdict);
    assert(p4 == p3 + addr);
    assert(v@ =~= start + json_outcome(o@));
}

/// The JSON object describing an outcome: the input, whether it is valid,
/// the fields (or null) and the list of problems.
pub fn to_json(o: &ParseOutcome) -> (r: String)
    ensures
        r@ == json_outcome(o@),
{
    let mut v: Vec<char> = Vec::new();
    outcome_into(&mut v, o);
    assert(v@ =~= json_outcome(o@));
    string_of(&v)
}

/// A JSON array with one object per outcome, in order.
pub fn to_json_array(os: &Vec<ParseOutcome>) -> (r: String)
    ensures
        r@ == json_array(outcome_views(os@)),
{
    let mut v: Vec<char> = Vec::new();
    push_str(&mut v, "[");
    let ghost before = v@;
    let ghost js = outcome_views(os@).map_values(|o: OutcomeView| json_outcome(o));
    for i in 0..os.len()
        invariant
            js == outcome_views(os@).map_values(|o: OutcomeView| json_outcome(o)),
            js.len() == os.len(),
            v@ == before + join(js.take(i as int), ","@),
    {
        assert(js.take(i + 1).drop_last() =~= js.take(i as int));
        assert(js[i as int] == json_outcome(os@[i as int]@));
        if i > 0 {
            push_str(&mut v, ",");
        }
        outcome_into(&mut v, &os[i]);
        assert(v@ =~= before + join(js.take(i + 1), ","@));
    }
    assert(js.take(os.len() as int) == js);
    push_str(&mut v, "]");
    assert(v@ =~= json_array(outcome_views(os@)));
    string_of(&v)
}

/// One "error:" line per problem, in order.
pub open spec fn error_lines(es: Seq<Seq<char>>) -> Seq<char>
    decreases es.len(),
{
    if es.len() == 0 {
        Seq::empty()
    } else {
        error_lines(es.drop_last()) + "error:  "@ + es.last() + "\n"@
    }
}

/// The human-readable report for one outcome: the fields (or a note that
/// none could be parsed), one "error:" line per problem, then "valid:".
pub open spec fn human_report(o: OutcomeView) -> Seq<char> {
    let fields = match o.address {
        Some(a) => "street: "@ + a.street + "\n"@ + "city:   "@ + a.city + "\n"@ + "state:  "@
            + a.state + "\n"@ + "zip:    "@ + zip_text(a) + "\n"@ + match a.po_box {
            Some(p) => "po box: "@ + p + "\n"@,
            None => Seq::<char>::empty(),
        },
        None => "(no fields could be parsed)\n"@,
    };
    let verdict = if o.errors.len() == 0 {
        "valid:  true\n"@
    } else {
        "valid:  false\n"@
    };
    fields + error_lines(o.errors) + verdict
}

fn push_string(v: &mut Vec<char>, s: &String)
    ensures
        final(v)@ == old(v)@ + s@,
{
    let c = chars_of(s.as_str());
    extend(v, &c);
}

fn fields_into(v: &mut Vec<char>, a: &ParsedAddress)
    ensures
        final(v)@ == old(v)@ + "street: "@ + a@.street + "\n"@ + "city:   "@ + a@.city + "\n"@
            + "state:  "@ + a@.state + "\n"@ + "zip:    "@ + zip_text(a@) + "\n"@ + match a@.po_box {
            Some(p) => "po box: "@ + p + "\n"@,
            None => Seq::<char>::empty(),
        },
{
    let ghost start = v@;
    push_str(v, "street: ");
    push_string(v, &a.street);
    push_str(v, "\n");
    push_str(v, "city:   ");
    push_string(v, &a.city);
    push_str(v, "\n");
    push_str(v, "state:  ");
    push_string(v, &a.state);
    push_str(v, "\n");
    push_str(v, "zip:    ");
    push_string(v, &a.zip5);
    match &a.zip4 {
        Some(z) => {
            v.push('-');
            push_string(v, z);
        },
        None => {},
    }
    push_str(v, "\n");
    let ghost mid = v@;
    assert(mid =~= start + "street: "@ + a@.street + "\n"@ + "city:   "@ + a@.city + "\n"@
        + "state:  "@ + a@.state + "\n"@ + "zip:    "@ + zip_text(a@) + "\n"@);
    match &a.po_box {
        Some(p) => {
            push_str(v, "po box: ");
            push_string(v, p);
            push_str(v, "\n");
            assert(v@ =~= mid + ("po box: "@ + p@ + "\n"@));
        },
        None => {
            assert(v@ =~= mid + Seq::<char>::empty());
        },
    }
}

/// The human-readable report for one outcome, one "label: value" line each.
pub fn to_human(o: &ParseOutcome) -> (r: String)
    ensures
        r@ == human_report(o@),
{
    let mut v: Vec<char> = Vec::new();
    match &o.address {
        Some(a) => fields_into(&mut v, a),
        None => push_str(&mut v, "(no fields could be parsed)\n"),
    }
    let ghost before = v@;
    let ghost es = string_views(o.errors@);
    for i in 0..o.errors.len()
        invariant
            es == string_views(o.errors@),
            es.len() == o.errors.len(),
            v@ == before + error_lines(es.take(i as int)),
    {
        assert(es.take(i + 1).drop_last() =~= es.take(i as int));
        assert(es[i as int] == o.errors@[i as int]@);
        push_str(&mut v, "error:  ");
        push_string(&mut v, &o.errors[i]);
        push_str(&mut v, "\n");
        assert(v@ =~= before + error_lines(es.take(i + 1)));
    }
    assert(es.take(o.errors.len() as int) == es);
    if o.errors.len() == 0 {
        push_str(&mut v, "valid:  true\n");
    } else {
        push_str(&mut v, "valid:  false\n");
    }
    assert(v@ =~= human_report(o@));
    string_of(&v)
}

// ---------------------------------------------------------------------------
// Decoding JSON strings

/// The value of a hexadecimal digit of either case.
pub open spec fn hex_value(c: char) -> Option<int> {
    if '0' <= c && c <= '9' {
        Some(c as int - 48)
    } else if 'a' <= c && c <= 'f' {
        Some(c as int - 87)
    } else if 'A' <= c && c <= 'F' {
        Some(c as int - 55)
    } else {
        None
    }
}

/// The character a one-letter JSON escape (`\"`, `\\`, `\/`, `\b`, `\f`,
/// `\n`, `\r`, `\t`) stands for.
pub open spec fn short_escape(e: char) -> Option<char> {
    if e == '"' {
        Some('"')
    } else if e == '\\' {
        Some('\\')
    } else if e == '/' {
        Some('/')
    } else if e == 'b' {
        Some('\u{8}')
    } else if e == 'f' {
        Some('\u{c}')
    } else if e == 'n' {
        Some('\n')
    } else if e == 'r' {
        Some('\r')
    } else if e == 't' {
        Some('\t')
    } else {
        None
    }
}

/// The code point of a `\uXXXX` escape at the start of `t`, outside the
/// UTF-16 surrogate range.
pub open spec fn unicode_escape(t: Seq<char>) -> Option<int> {
    if t.len() >= 6 && t[0] == '\\' && t[1] == 'u' && hex_value(t[2]) is Some && hex_value(t[3]) is Some
        && hex_value(t[4]) is Some && hex_value(t[5]) is Some {
        let code = hex_value(t[2])->0 * 4096 + hex_value(t[3])->0 * 256 + hex_value(t[4])->0 * 16
            + hex_value(t[5])->0;
        if 0xd800 <= code <= 0xdfff {
            None
        } else {
            Some(code)
        }
    } else {
        None
    }
}

/// Decodes the characters between the quotes of a JSON string literal
/// (RFC 8259): `None` where they are not a valid string body (a raw `"`, a
/// raw control character, or a bad escape). Escaped surrogate pairs are not
/// decoded here.
pub open spec fn json_unescape(t: Seq<char>) -> Option<Seq<char>>
    decreases t.len(),
{
    if t.len() == 0 {
        Some(Seq::empty())
    } else if t[0] == '\\' {
        if t.len() >= 2 && short_escape(t[1]) is Some {
            match json_unescape(t.skip(2)) {
                Some(r) => Some(seq![short_escape(t[1])->0] + r),
                None => None,
            }
        } else if unicode_escape(t) is Some {
            match json_unescape(t.skip(6)) {
                Some(r) => Some(seq![(unicode_escape(t)->0) as char] + r),
                None => None,
            }
        } else {
            None
        }
    } else if t[0] == '"' || (t[0] as u32) < 0x20 {
        None
    } else {
        match json_unescape(t.skip(1)) {
            Some(r) => Some(seq![t[0]] + r),
            None => None,
        }
    }
}

proof fn lemma_json_escape_front(c: char, s: Seq<char>)
    ensures
        json_escape(seq![c] + s) == json_escape_char(c) + json_escape(s),
    decreases s.len(),
{
    if s.len() == 0 {
        assert(seq![c] + s =~= seq![c]);
        assert(seq![c].drop_last() =~= Seq::<char>::empty());
        assert(json_escape(Seq::<char>::empty()) =~= Seq::<char>::empty());
        assert(seq![c].last() == c);
        assert(json_escape(seq![c]) == json_escape(seq![c].drop_last()) + json_escape_char(c));
        assert(json_escape(seq![c]) =~= json_escape_char(c));
        assert(json_escape(s) =~= Seq::<char>::empty());
    } else {
        let s1 = s.drop_last();
        assert((seq![c] + s).drop_last() =~= seq![c] + s1);
        lemma_json_escape_front(c, s1);
        assert(json_escape(seq![c] + s) =~= json_escape_char(c) + json_escape(s));
    }
}

proof fn lemma_hex_round_trip(d: int)
    requires
        0 <= d < 16,
    ensures
        hex_value(hex_digits()[d]) == Some(d),
{
}

proof fn lemma_unescape_one(c: char, rest: Seq<char>)
    ensures
        json_unescape(json_escape_char(c) + rest) == match json_unescape(rest) {
            Some(r) => Some(seq![c] + r),
            None => None::<Seq<char>>,
        },
{
    let t = json_escape_char(c) + rest;
    if c == '"' || c == '\\' || c == '\n' || c == '\r' || c == '\t' {
        assert(t.skip(2) =~= rest);
    } else if (c as u32) < 0x20 {
        let x = c as u32;
        lemma_hex_round_trip((x / 16) as int);
        lemma_hex_round_trip((x % 16) as int);
        assert(t[0] == '\\' && t[1] == 'u');
        assert(short_escape(t[1]) is None);
        assert(unicode_escape(t) == Some(x as int));
        assert((x as int) as char == c);
        assert(t.skip(6) =~= rest);
    } else {
        assert(t[0] == c);
        assert(t.skip(1) =~= rest);
    }
}

/// `json_string` writes a well-formed JSON string literal: a quote, a body
/// that a JSON decoder turns back into exactly the input, and a quote.
pub proof fn law_json_string_decodes(s: Seq<char>)
    ensures
        json_quote(s) == seq!['"'] + json_escape(s) + seq!['"'],
        json_quote(s).len() >= 2,
        json_quote(s)[0] == '"',
        json_quote(s).last() == '"',
        json_unescape(json_quote(s).subrange(1, json_quote(s).len() - 1)) == Some(s),
    decreases s.len(),
{
    let q = json_quote(s);
    assert(q.subrange(1, q.len() - 1) =~= json_escape(s));
    if s.len() == 0 {
        assert(json_escape(s) =~= Seq::<char>::empty());
        assert(s =~= Seq::<char>::empty());
    } else {
        let rest = s.drop_first();
        law_json_string_decodes(rest);
        assert(s =~= seq![s[0]] + rest);
        lemma_json_escape_front(s[0], rest);
        let rq = json_quote(rest);
        assert(rq.subrange(1, rq.len() - 1) =~= json_escape(rest));
        lemma_unescape_one(s[0], json_escape(rest));
        assert(seq![s[0]] + rest =~= s);
    }
}

} // verus!
