//! Properties of parsing that span several inputs or functions.

use vstd::prelude::*;
use crate::address::{
    AddressView, OutcomeView, Segments, box_errors, box_number, comma_parts, comma_space,
    detect_po_box, directional_errors, has_empty, keep_nonblank, last_suffix_before,
    msg_no_box_number, msg_state, msg_tail, nonblank_lines, segments, single_line, space,
    spec_parse, split_zip, strip_country, suffix_errors, whitespace_split, zip_text,
};
use crate::codes::{
    directional_abbrev, directional_abbrevs, directional_from, directional_names, is_country_name,
    is_standard_suffix, lemma_country_name_shape, lemma_state_code_shape, state_codes,
    suffix_codes, upper_case,
};
use crate::report::{human_report, json_array, json_outcome};
use crate::text::{
    ascii_upper, ascii_upper_char, eq_ignore_ascii_case, fold_ascii, is_ascii_digit,
    is_ascii_text, is_digits, is_ws, join, lemma_find_from_absent, lemma_find_from_first,
    lemma_join_absent, lemma_join_first, lemma_join_last, lemma_rfind_below_absent,
    lemma_rfind_below_last, lemma_skip_ws_back_bounds, lemma_skip_ws_fwd_bounds,
    lemma_skip_ws_fwd_concat, lemma_split_concat, lemma_split_len, lemma_split_no_sep,
    lemma_split_pieces_no_sep, lemma_trim_absent, lemma_trim_after_leading, lemma_trim_of_clean,
    lemma_trim_shape, lemma_trim_space_clean, lemma_words_concat, lemma_words_elems,
    lemma_words_single, skip_ws_back, skip_ws_fwd, split, trim, trim_end_char, words,
};

verus! {

proof fn lemma_contains_widen(b: Seq<Seq<char>>, m: Seq<Seq<char>>, r: Seq<Seq<char>>, e: Seq<char>)
    requires
        (b + r).contains(e),
    ensures
        (b + m + r).contains(e),
{
    let i = choose|i: int| 0 <= i < (b + r).len() && (b + r)[i] == e;
    if i < b.len() {
        assert((b + m + r)[i] == e);
    } else {
        assert((b + m + r)[i + m.len()] == e);
    }
}

/// Strict mode only adds checks: the fields come out the same with or without
/// it, every problem found without it is found with it too, and a line that
/// passes strict mode passes without it.
pub proof fn law_strict_only_adds_errors(input: Seq<char>)
    ensures
        spec_parse(input, true).input == spec_parse(input, false).input,
        spec_parse(input, true).address == spec_parse(input, false).address,
        forall|e: Seq<char>| #[trigger] spec_parse(input, false).errors.contains(e)
            ==> spec_parse(input, true).errors.contains(e),
        spec_parse(input, true).errors.len() == 0 ==> spec_parse(input, false).errors.len() == 0,
{
    let t = trim(input);
    match segments(strip_country(t)) {
        None => {},
        Some(seg) => {
            let pb = detect_po_box(seg.primary);
            let b = box_errors(pb);
            let m = (if pb is None {
                suffix_errors(seg.primary)
            } else {
                Seq::empty()
            }) + directional_errors(words(seg.primary));
            let tt = words(seg.tail);
            let rest = if tt.len() < 2 {
                seq![msg_tail(seg.tail)]
            } else {
                let state = upper_case(join(tt.drop_last(), space()));
                let state_errs = if state_codes().contains(state) {
                    Seq::empty()
                } else {
                    seq![msg_state(state)]
                };
                state_errs + match split_zip(tt.last()) {
                    Ok(_) => Seq::<Seq<char>>::empty(),
                    Err(msg) => seq![msg],
                }
            };
            assert(spec_parse(input, false).errors =~= b + rest);
            assert(spec_parse(input, true).errors =~= b + m + rest);
            assert forall|e: Seq<char>| #[trigger]
                spec_parse(input, false).errors.contains(e) implies spec_parse(
                input,
                true,
            ).errors.contains(e) by {
                lemma_contains_widen(b, m, rest, e);
            }
        },
    }
}

/// A trailing country designator after a comma is ignored: the line parses
/// to the same fields and problems as the line without it (unless that line
/// itself ends in one).
pub proof fn law_country_suffix_ignored(x: Seq<char>, name: Seq<char>, strict: bool)
    requires
        is_country_name(name),
        strip_country(trim(x)) == trim(x),
    ensures
        spec_parse(x + comma_space() + name, strict).address == spec_parse(x, strict).address,
        spec_parse(x + comma_space() + name, strict).errors == spec_parse(x, strict).errors,
{
    lemma_country_name_shape(name);
    let v = seq![' '] + name;
    let s = x + comma_space() + name;
    assert(s =~= x + (seq![','] + v));
    lemma_skip_ws_fwd_bounds(x, 0);
    let a = skip_ws_fwd(x, 0);
    lemma_skip_ws_fwd_concat(x, seq![','] + v, 0);
    assert(s.last() == name.last());
    assert(skip_ws_back(s, a, s.len() as int) == s.len());
    let u = x.subrange(a, x.len() as int);
    let t = trim(s);
    assert(t =~= u + seq![','] + v);
    assert(!v.contains(',')) by {
        if v.contains(',') {
            let k = choose|k: int| 0 <= k < v.len() && v[k] == ',';
            assert(k > 0);
            assert(name[k - 1] == ',');
        }
    }
    lemma_rfind_below_last(u, ',', v, t.len() as int);
    assert(t.subrange(u.len() as int + 1, t.len() as int) =~= v);
    lemma_trim_space_clean(name);
    assert(t.subrange(0, u.len() as int) =~= u);
    lemma_trim_after_leading(x);
    assert(strip_country(t) == trim(x));
}

/// The street is its trimmed, non-empty comma segments joined with ", ".
pub open spec fn clean_street(street: Seq<char>) -> bool {
    let ps = split(street, ',');
    &&& forall|i: int| 0 <= i < ps.len() ==> trim(#[trigger] ps[i]).len() > 0
    &&& street == join(ps.map_values(|p: Seq<char>| trim(p)), comma_space())
}

/// Fields that a single line carries through `parse` unchanged: a clean
/// street, a trimmed city without commas, a state code that is one word in
/// upper case, well-formed ZIP digits, and the PO box number that the street
/// line itself implies.
pub open spec fn reassemblable(a: AddressView) -> bool {
    &&& clean_street(a.street)
    &&& a.city.len() > 0
    &&& trim(a.city) == a.city
    &&& !a.city.contains(',')
    &&& a.state.len() > 0
    &&& !a.state.contains(',')
    &&& forall|i: int| 0 <= i < a.state.len() ==> !is_ws(#[trigger] a.state[i])
    &&& upper_case(a.state) == a.state
    &&& is_digits(a.zip5, 5)
    &&& match a.zip4 {
        Some(z) => is_digits(z, 4),
        None => true,
    }
    &&& a.po_box == box_number(detect_po_box(trim(split(a.street, ',')[0])))
}

proof fn lemma_zip_text(a: AddressView)
    requires
        is_digits(a.zip5, 5),
        match a.zip4 {
            Some(z) => is_digits(z, 4),
            None => true,
        },
    ensures
        zip_text(a).len() > 0,
        forall|i: int| 0 <= i < zip_text(a).len() ==> !is_ws(#[trigger] zip_text(a)[i]) && zip_text(a)[i] != ',',
        is_ascii_digit(zip_text(a).last()),
        split_zip(zip_text(a)) == Ok::<_, Seq<char>>((a.zip5, a.zip4)),
{
    let zt = zip_text(a);
    assert(!a.zip5.contains('-')) by {
        if a.zip5.contains('-') {
            let k = choose|k: int| 0 <= k < a.zip5.len() && a.zip5[k] == '-';
            assert(is_ascii_digit(a.zip5[k]));
        }
    }
    match a.zip4 {
        Some(z) => {
            assert(zt =~= a.zip5 + seq!['-'] + z);
            lemma_find_from_first(a.zip5, '-', z, 0);
            assert(zt.subrange(0, 5) =~= a.zip5);
            assert(zt.subrange(6, zt.len() as int) =~= z);
            assert(zt.last() == z[3]);
            assert forall|i: int| 0 <= i < zt.len() implies !is_ws(#[trigger] zt[i]) && zt[i] != ',' by {
                if i < 5 {
                    assert(is_ascii_digit(a.zip5[i]));
                } else if i > 5 {
                    assert(zt[i] == z[i - 6]);
                    assert(is_ascii_digit(z[i - 6]));
                }
            }
        },
        None => {
            assert(zt =~= a.zip5);
            lemma_find_from_absent(a.zip5, '-', 0);
            assert(zt.last() == a.zip5[4]);
            assert forall|i: int| 0 <= i < zt.len() implies !is_ws(#[trigger] zt[i]) && zt[i] != ',' by {
                assert(is_ascii_digit(a.zip5[i]));
            }
        },
    }
}

/// The single line of a reassemblable address is already trimmed, has no
/// country designator to drop, and splits back into its own fields.
#[verifier::rlimit(40)]
proof fn lemma_single_line_segments(a: AddressView)
    requires
        reassemblable(a),
    ensures
        trim(single_line(a)) == single_line(a),
        strip_country(single_line(a)) == single_line(a),
        segments(single_line(a)) == Some(
            Segments {
                street: a.street,
                primary: trim(split(a.street, ',')[0]),
                city: a.city,
                tail: a.state + space() + zip_text(a),
            },
        ),
        words(a.state + space() + zip_text(a)) == seq![a.state, zip_text(a)],
        split_zip(zip_text(a)) == Ok::<_, Seq<char>>((a.zip5, a.zip4)),
{
    let ps = split(a.street, ',');
    let qs = ps.map_values(|p: Seq<char>| trim(p));
    let zt = zip_text(a);
    lemma_zip_text(a);
    let tl = a.state + space() + zt;
    let city_seg = seq![' '] + a.city;
    let tail_seg = seq![' '] + tl;
    let line = single_line(a);
    assert(line =~= a.street + seq![','] + (city_seg + seq![','] + tail_seg));
    // the line is already trimmed
    lemma_split_len(a.street, ',');
    lemma_trim_shape(ps[0]);
    assert(qs[0] == trim(ps[0]));
    lemma_join_first(qs, comma_space());
    lemma_trim_shape(a.city);
    assert(line[0] == a.street[0]);
    assert(line.last() == zt.last());
    lemma_trim_of_clean(line);
    // the tail is not a country designator
    assert(tl[0] == a.state[0]);
    assert(tl.last() == zt.last());
    assert forall|i: int| 0 <= i < tl.len() implies tl[i] != ',' by {
        if i < a.state.len() {
            assert(tl[i] == a.state[i]);
            assert(!a.state.contains(',')) ;
            if a.state[i] == ',' {
                assert(a.state.contains(','));
            }
        } else if i > a.state.len() {
            assert(tl[i] == zt[i - a.state.len() - 1]);
        }
    }
    assert(!tail_seg.contains(',')) by {
        if tail_seg.contains(',') {
            let k = choose|k: int| 0 <= k < tail_seg.len() && tail_seg[k] == ',';
            assert(tl[k - 1] == ',');
        }
    }
    let head = a.street + seq![','] + city_seg;
    assert(line =~= head + seq![','] + tail_seg);
    lemma_rfind_below_last(head, ',', tail_seg, line.len() as int);
    assert(line.subrange(head.len() as int + 1, line.len() as int) =~= tail_seg);
    lemma_trim_space_clean(tl);
    if is_country_name(tl) {
        lemma_country_name_shape(tl);
    }
    assert(strip_country(line) == line);
    // the comma segments
    assert(!city_seg.contains(',')) by {
        if city_seg.contains(',') {
            let k = choose|k: int| 0 <= k < city_seg.len() && city_seg[k] == ',';
            assert(a.city[k - 1] == ',');
            assert(a.city.contains(','));
        }
    }
    lemma_split_concat(a.street, city_seg + seq![','] + tail_seg, ',');
    lemma_split_concat(city_seg, tail_seg, ',');
    lemma_split_no_sep(city_seg, ',');
    lemma_split_no_sep(tail_seg, ',');
    assert(split(line, ',') =~= ps + seq![city_seg, tail_seg]);
    lemma_trim_space_clean(a.city);
    let parts = comma_parts(line);
    assert(parts =~= qs + seq![a.city, tl]);
    assert(!has_empty(parts)) by {
        if has_empty(parts) {
            let i = choose|i: int| 0 <= i < parts.len() && (#[trigger] parts[i]).len() == 0;
            if i < qs.len() {
                assert(trim(ps[i]).len() > 0);
            }
        }
    }
    assert(parts.subrange(0, parts.len() - 2) =~= qs);
    // the tail words
    assert forall|i: int| 0 <= i < zt.len() implies !is_ws(#[trigger] zt[i]) by {
        assert(!is_ws(zt[i]) && zt[i] != ',');
    }
    lemma_words_single(a.state);
    lemma_words_single(zt);
    lemma_words_concat(a.state, ' ', zt);
    assert(words(tl) =~= seq![a.state, zt]);
    assert(words(tl).drop_last() =~= seq![a.state]);
    assert(join(seq![a.state], space()) == a.state);
    let seg = segments(line);
    assert(seg == Some(Segments { street: a.street, primary: qs[0], city: a.city, tail: tl }));
}

/// What `to_single_line` writes, `parse` reads back: a reassemblable address
/// survives the round trip field for field.
pub proof fn law_single_line_round_trip(a: AddressView, strict: bool)
    requires
        reassemblable(a),
    ensures
        spec_parse(single_line(a), strict).address == Some(a),
{
    lemma_single_line_segments(a);
    assert(words(a.state + space() + zip_text(a)).drop_last() =~= seq![a.state]);
    assert(join(seq![a.state], space()) == a.state);
}

proof fn lemma_subrange_absent(s: Seq<char>, a: int, b: int, c: char)
    requires
        0 <= a <= b <= s.len(),
        !s.contains(c),
    ensures
        !s.subrange(a, b).contains(c),
{
    if s.subrange(a, b).contains(c) {
        let k = choose|k: int| 0 <= k < b - a && s.subrange(a, b)[k] == c;
        assert(s[a + k] == c);
    }
}

/// A piece built from words by `join` with single spaces, as the whitespace
/// split builds street and city: trimmed, and without commas.
proof fn lemma_joined_words_clean(toks: Seq<Seq<char>>, lo: int, hi: int)
    requires
        0 <= lo < hi <= toks.len(),
        forall|i: int| 0 <= i < toks.len() ==> (#[trigger] toks[i]).len() > 0,
        forall|i: int, j: int|
            0 <= i < toks.len() && 0 <= j < toks[i].len() ==> !is_ws(#[trigger] toks[i][j]),
        forall|i: int| 0 <= i < toks.len() ==> !(#[trigger] toks[i]).contains(','),
    ensures
        join(toks.subrange(lo, hi), space()).len() > 0,
        !is_ws(join(toks.subrange(lo, hi), space())[0]),
        !is_ws(join(toks.subrange(lo, hi), space()).last()),
        !join(toks.subrange(lo, hi), space()).contains(','),
{
    let ps = toks.subrange(lo, hi);
    assert(ps[0] == toks[lo]);
    assert(ps.last() == toks[hi - 1]);
    lemma_join_first(ps, space());
    lemma_join_last(ps, space());
    assert(!is_ws(toks[lo][0]));
    assert(!is_ws(toks[hi - 1][toks[hi - 1].len() - 1]));
    assert(!space().contains(',')) by {
        if space().contains(',') {
            assert(space()[0] == ',');
        }
    }
    assert forall|i: int| 0 <= i < ps.len() implies !(#[trigger] ps[i]).contains(',') by {
        assert(ps[i] == toks[lo + i]);
    }
    lemma_join_absent(ps, space(), ',');
}

/// A piece that starts and ends with non-whitespace and holds no comma.
pub open spec fn clean_piece(p: Seq<char>) -> bool {
    &&& p.len() > 0
    &&& !is_ws(p[0])
    &&& !is_ws(p.last())
    &&& !p.contains(',')
}

/// STREET, CITY, TAIL written with ", " between clean pieces splits back into
/// those pieces.
proof fn lemma_comma_form_segments(st: Seq<char>, ci: Seq<char>, tl: Seq<char>)
    requires
        clean_piece(st),
        clean_piece(ci),
        clean_piece(tl),
        !is_country_name(tl),
    ensures
        ({
            let c = st + comma_space() + ci + comma_space() + tl;
            segments(strip_country(trim(c))) == Some(
                Segments { street: st, primary: st, city: ci, tail: tl },
            )
        }),
{
    let city_seg = seq![' '] + ci;
    let tail_seg = seq![' '] + tl;
    let c = st + comma_space() + ci + comma_space() + tl;
    assert(c =~= st + seq![','] + (city_seg + seq![','] + tail_seg));
    assert(c[0] == st[0]);
    assert(c.last() == tl.last());
    lemma_trim_of_clean(c);
    let head = st + seq![','] + city_seg;
    assert(c =~= head + seq![','] + tail_seg);
    assert(!tail_seg.contains(',')) by {
        if tail_seg.contains(',') {
            let j = choose|j: int| 0 <= j < tail_seg.len() && tail_seg[j] == ',';
            assert(tl[j - 1] == ',');
        }
    }
    assert(!city_seg.contains(',')) by {
        if city_seg.contains(',') {
            let j = choose|j: int| 0 <= j < city_seg.len() && city_seg[j] == ',';
            assert(ci[j - 1] == ',');
        }
    }
    lemma_rfind_below_last(head, ',', tail_seg, c.len() as int);
    assert(c.subrange(head.len() as int + 1, c.len() as int) =~= tail_seg);
    lemma_trim_space_clean(tl);
    assert(strip_country(c) == c);
    lemma_split_concat(st, city_seg + seq![','] + tail_seg, ',');
    lemma_split_concat(city_seg, tail_seg, ',');
    lemma_split_no_sep(st, ',');
    lemma_split_no_sep(city_seg, ',');
    lemma_split_no_sep(tail_seg, ',');
    assert(split(c, ',') =~= seq![st, city_seg, tail_seg]);
    lemma_trim_of_clean(st);
    lemma_trim_space_clean(ci);
    let parts = comma_parts(c);
    assert(parts =~= seq![st, ci, tl]);
    assert(!has_empty(parts));
    assert(parts.subrange(0, 1) =~= seq![st]);
}

/// The pieces the whitespace split makes of a comma-free line are clean.
proof fn lemma_whitespace_split_clean(t: Seq<char>)
    requires
        !t.contains(','),
        whitespace_split(t) is Some,
    ensures
        clean_piece(whitespace_split(t)->0.street),
        clean_piece(whitespace_split(t)->0.city),
        clean_piece(whitespace_split(t)->0.tail),
        whitespace_split(t)->0.primary == whitespace_split(t)->0.street,
{
    let toks = words(t);
    lemma_words_elems(t, ',');
    let si = toks.len() - 2;
    lemma_last_suffix_before_range(toks, si - 1);
    let k = last_suffix_before(toks, si - 1)->0;
    lemma_joined_words_clean(toks, 0, k + 1);
    lemma_joined_words_clean(toks, k + 1, si);
    let tl = whitespace_split(t)->0.tail;
    let a = toks[si];
    let b = toks[toks.len() - 1];
    assert(tl == a + space() + b);
    assert(a.len() > 0 && b.len() > 0);
    assert(tl[0] == a[0]);
    assert(!is_ws(a[0]));
    assert(tl.last() == b[b.len() - 1]);
    assert(!is_ws(b[b.len() - 1]));
    assert(!a.contains(',') && !b.contains(','));
    assert(!tl.contains(',')) by {
        if tl.contains(',') {
            let j = choose|j: int| 0 <= j < tl.len() && tl[j] == ',';
            if j < a.len() {
                assert(a[j] == ',');
                assert(a.contains(','));
            } else if j > a.len() {
                assert(b[j - a.len() - 1] == ',');
                assert(b.contains(','));
            }
        }
    }
}

/// A line without commas that the whitespace split can handle parses exactly
/// as its comma-separated form STREET, CITY, STATE ZIP does (unless its last
/// two words happen to spell a country designator, which the comma form
/// would drop).
pub proof fn law_whitespace_split_matches_comma_form(input: Seq<char>, strict: bool)
    requires
        !input.contains(','),
        whitespace_split(trim(input)) is Some,
        !is_country_name(whitespace_split(trim(input))->0.tail),
    ensures
        ({
            let seg = whitespace_split(trim(input))->0;
            let comma_form = seg.street + comma_space() + seg.city + comma_space() + seg.tail;
            &&& spec_parse(comma_form, strict).address == spec_parse(input, strict).address
            &&& spec_parse(comma_form, strict).errors == spec_parse(input, strict).errors
        }),
{
    let t = trim(input);
    let seg = whitespace_split(t)->0;
    lemma_skip_ws_fwd_bounds(input, 0);
    lemma_skip_ws_back_bounds(input, skip_ws_fwd(input, 0), input.len() as int);
    lemma_subrange_absent(
        input,
        skip_ws_fwd(input, 0),
        skip_ws_back(input, skip_ws_fwd(input, 0), input.len() as int),
        ',',
    );
    lemma_rfind_below_absent(t, ',', t.len() as int);
    assert(strip_country(t) == t);
    lemma_split_no_sep(t, ',');
    assert(comma_parts(t).len() == 1);
    assert(segments(t) == Some(seg));
    lemma_whitespace_split_clean(t);
    lemma_comma_form_segments(seg.street, seg.city, seg.tail);
}

proof fn lemma_last_suffix_before_range(toks: Seq<Seq<char>>, n: int)
    ensures
        last_suffix_before(toks, n) matches Some(k) ==> 0 <= k < n,
    decreases n,
{
    if n > 0 && !is_standard_suffix(toks[n - 1]) {
        lemma_last_suffix_before_range(toks, n - 1);
    }
}

/// A PO box line with no number after the prefix is never valid.
pub proof fn law_po_box_without_number_invalid(input: Seq<char>, strict: bool)
    requires
        segments(strip_country(trim(input))) matches Some(seg) && detect_po_box(seg.primary)
            == Some(None::<Seq<char>>),
    ensures
        spec_parse(input, strict).errors.contains(msg_no_box_number()),
        !(spec_parse(input, strict).errors.len() == 0 && spec_parse(input, strict).address is Some),
{
    let seg = segments(strip_country(trim(input)))->0;
    let pb = detect_po_box(seg.primary);
    assert(box_errors(pb) == seq![msg_no_box_number()]);
    assert(spec_parse(input, strict).errors[0] == msg_no_box_number());
}

proof fn lemma_trim_end_char_prefix(s: Seq<char>, c: char)
    ensures
        trim_end_char(s, c).len() <= s.len(),
        forall|i: int| 0 <= i < trim_end_char(s, c).len() ==> #[trigger] trim_end_char(s, c)[i] == s[i],
    decreases s.len(),
{
    if s.len() > 0 && s.last() == c {
        lemma_trim_end_char_prefix(s.drop_last(), c);
    }
}

proof fn lemma_fold_period(c: char)
    ensures
        (fold_ascii(c) == 46) == (c == '.'),
{
    assert(('.' as u32) == 46);
    if (c as u32) == 46 {
        assert(c == '.');
    }
}

proof fn lemma_trim_end_period_ignores_case(a: Seq<char>, b: Seq<char>)
    requires
        eq_ignore_ascii_case(a, b),
    ensures
        eq_ignore_ascii_case(trim_end_char(a, '.'), trim_end_char(b, '.')),
    decreases a.len(),
{
    if a.len() > 0 {
        assert(fold_ascii(a[a.len() - 1]) == fold_ascii(b[b.len() - 1]));
        lemma_fold_period(a.last());
        lemma_fold_period(b.last());
        assert((a.last() == '.') == (b.last() == '.'));
        if a.last() == '.' {
            let a1 = a.drop_last();
            let b1 = b.drop_last();
            assert forall|i: int| 0 <= i < a1.len() implies fold_ascii(#[trigger] a1[i])
                == fold_ascii(b1[i]) by {
                assert(fold_ascii(a[i]) == fold_ascii(b[i]));
            }
            lemma_trim_end_period_ignores_case(a1, b1);
        }
    }
}

proof fn lemma_ascii_upper_ignores_case(a: Seq<char>, b: Seq<char>)
    requires
        eq_ignore_ascii_case(a, b),
    ensures
        ascii_upper(a) == ascii_upper(b),
{
    assert forall|i: int| 0 <= i < a.len() implies ascii_upper_char(a[i]) == ascii_upper_char(
        b[i],
    ) by {
        assert(fold_ascii(a[i]) == fold_ascii(b[i]));
    }
    assert(ascii_upper(a) =~= ascii_upper(b));
}

/// On ASCII words the suffix test is the USPS list looked up with trailing
/// periods dropped and letters upper-cased, so it ignores letter case and a
/// trailing period.
pub proof fn law_suffix_ascii(w: Seq<char>)
    requires
        is_ascii_text(w),
    ensures
        is_standard_suffix(w) == suffix_codes().contains(ascii_upper(trim_end_char(w, '.'))),
        is_standard_suffix(w + seq!['.']) == is_standard_suffix(w),
{
    lemma_trim_end_char_prefix(w, '.');
    let t = trim_end_char(w, '.');
    assert(is_ascii_text(t)) by {
        assert forall|i: int| 0 <= i < t.len() implies (#[trigger] t[i] as u32) < 128 by {
            assert(t[i] == w[i]);
        }
    }
    let w2 = w + seq!['.'];
    assert(w2.drop_last() =~= w);
}

/// Two ASCII words that differ only in letter case are both standard
/// suffixes or both not.
pub proof fn law_suffix_ignores_ascii_case(w1: Seq<char>, w2: Seq<char>)
    requires
        is_ascii_text(w1),
        is_ascii_text(w2),
        eq_ignore_ascii_case(w1, w2),
    ensures
        is_standard_suffix(w1) == is_standard_suffix(w2),
{
    law_suffix_ascii(w1);
    law_suffix_ascii(w2);
    lemma_trim_end_period_ignores_case(w1, w2);
    lemma_ascii_upper_ignores_case(trim_end_char(w1, '.'), trim_end_char(w2, '.'));
}

/// The pieces `split` gives back of a ", "-join: the first piece, then each
/// later piece after its space.
pub open spec fn comma_pieces(qs: Seq<Seq<char>>) -> Seq<Seq<char>> {
    Seq::new(qs.len(), |i: int| if i == 0 { qs[0] } else { seq![' '] + qs[i] })
}

proof fn lemma_split_join_comma(qs: Seq<Seq<char>>)
    requires
        qs.len() > 0,
        forall|i: int| 0 <= i < qs.len() ==> !(#[trigger] qs[i]).contains(','),
    ensures
        split(join(qs, comma_space()), ',') == comma_pieces(qs),
    decreases qs.len(),
{
    if qs.len() == 1 {
        lemma_split_no_sep(qs[0], ',');
        assert(split(join(qs, comma_space()), ',') =~= comma_pieces(qs));
    } else {
        let dl = qs.drop_last();
        assert forall|i: int| 0 <= i < dl.len() implies !(#[trigger] dl[i]).contains(',') by {
            assert(dl[i] == qs[i]);
        }
        lemma_split_join_comma(dl);
        let last = qs.last();
        assert(!last.contains(',')) by {
            assert(last == qs[qs.len() - 1]);
        }
        let sl = seq![' '] + last;
        assert(!sl.contains(',')) by {
            if sl.contains(',') {
                let k = choose|k: int| 0 <= k < sl.len() && sl[k] == ',';
                assert(last[k - 1] == ',');
            }
        }
        assert(join(qs, comma_space()) =~= join(dl, comma_space()) + seq![','] + sl);
        lemma_split_concat(join(dl, comma_space()), sl, ',');
        lemma_split_no_sep(sl, ',');
        assert(split(join(qs, comma_space()), ',') =~= comma_pieces(qs));
    }
}

proof fn lemma_split_zip_ok(tok: Seq<char>)
    ensures
        split_zip(tok) matches Ok((z5, z4)) ==> is_digits(z5, 5) && match z4 {
            Some(z) => is_digits(z, 4),
            None => true,
        },
{
}

/// The line was split at its commas: three or more segments, none empty
/// (a trailing country designator dropped first).
pub open spec fn comma_path(input: Seq<char>) -> bool {
    let parts = comma_parts(strip_country(trim(input)));
    parts.len() >= 3 && !has_empty(parts)
}

/// A valid address that was split at its commas reassembles: its single line
/// parses back, valid, to exactly the same fields.
#[verifier::rlimit(60)]
pub proof fn law_valid_parse_round_trip(input: Seq<char>, strict: bool)
    requires
        comma_path(input),
        spec_parse(input, strict).errors.len() == 0,
        spec_parse(input, strict).address is Some,
    ensures
        ({
            let a = spec_parse(input, strict).address->0;
            &&& reassemblable(a)
            &&& spec_parse(single_line(a), strict).address == Some(a)
            &&& spec_parse(single_line(a), strict).errors.len() == 0
        }),
{
    let t = trim(input);
    let body = strip_country(t);
    let ps0 = split(body, ',');
    let parts = comma_parts(body);
    let n = parts.len();
    let qs = parts.subrange(0, n - 2);
    let seg = segments(body)->0;
    assert(seg.street == join(qs, comma_space()));
    assert(seg.primary == parts[0]);
    // every segment is clean
    lemma_split_pieces_no_sep(body, ',');
    assert forall|i: int| 0 <= i < n implies !(#[trigger] parts[i]).contains(',') && parts[i].len()
        > 0 && !is_ws(parts[i][0]) && !is_ws(parts[i].last()) && trim(parts[i]) == parts[i] by {
        assert(parts[i] == trim(ps0[i]));
        lemma_trim_absent(ps0[i], ',');
        lemma_trim_shape(ps0[i]);
        if parts[i].len() == 0 {
            assert(has_empty(parts));
        }
    }
    // the street
    assert forall|i: int| 0 <= i < qs.len() implies !(#[trigger] qs[i]).contains(',') by {
        assert(qs[i] == parts[i]);
    }
    lemma_split_join_comma(qs);
    let pieces = comma_pieces(qs);
    assert(split(seg.street, ',') == pieces);
    assert forall|i: int| 0 <= i < pieces.len() implies trim(#[trigger] pieces[i]) == qs[i] by {
        assert(qs[i] == parts[i]);
        if i > 0 {
            lemma_trim_space_clean(qs[i]);
        }
    }
    assert(pieces.map_values(|p: Seq<char>| trim(p)) =~= qs);
    assert(clean_street(seg.street));
    // the tail and the fields that come of it
    let tt = words(seg.tail);
    let state = upper_case(join(tt.drop_last(), space()));
    let pb = detect_po_box(seg.primary);
    let e = box_errors(pb) + (if strict && pb is None {
        suffix_errors(seg.primary)
    } else {
        Seq::empty()
    }) + (if strict {
        directional_errors(words(seg.primary))
    } else {
        Seq::empty()
    });
    let a = spec_parse(input, strict).address->0;
    assert(tt.len() >= 2);
    assert(a.state == state);
    assert(state_codes().contains(state));
    lemma_split_zip_ok(tt.last());
    assert(split_zip(tt.last()) is Ok);
    assert(e.len() == 0);
    lemma_state_code_shape(state);
    assert(is_ascii_text(state)) by {
        assert forall|i: int| 0 <= i < state.len() implies (#[trigger] state[i] as u32) < 128 by {
            assert('A' <= state[i] && state[i] <= 'Z');
        }
    }
    assert(ascii_upper(state) =~= state);
    assert(upper_case(state) == state);
    assert(!state.contains(',')) by {
        if state.contains(',') {
            let k = choose|k: int| 0 <= k < state.len() && state[k] == ',';
            assert('A' <= state[k]);
        }
    }
    assert(trim(split(a.street, ',')[0]) == seg.primary);
    assert(reassemblable(a));
    law_single_line_round_trip(a, strict);
    lemma_single_line_segments(a);
    assert(words(a.state + space() + zip_text(a)).drop_last() =~= seq![a.state]);
    assert(join(seq![a.state], space()) == a.state);
    assert(spec_parse(single_line(a), strict).errors =~= e);
}

// ---------------------------------------------------------------------------
// Batch input

proof fn lemma_keep_nonblank_concat(x: Seq<Seq<char>>, y: Seq<Seq<char>>)
    ensures
        keep_nonblank(x + y) == keep_nonblank(x) + keep_nonblank(y),
    decreases y.len(),
{
    if y.len() == 0 {
        assert(x + y =~= x);
        assert(keep_nonblank(x) + keep_nonblank(y) =~= keep_nonblank(x));
    } else {
        let y1 = y.drop_last();
        assert((x + y).drop_last() =~= x + y1);
        assert((x + y).last() == y.last());
        lemma_keep_nonblank_concat(x, y1);
        assert(keep_nonblank(x + y) =~= keep_nonblank(x) + keep_nonblank(y));
    }
}

/// Batch input is read line by line: a piece with no line break is one line
/// (kept, trimmed, unless blank), whether or not a line break follows it, and
/// the lines before and after a line break are read independently. So every
/// non-blank line is parsed, the last one included.
pub proof fn law_lines_are_read_independently(a: Seq<char>, b: Seq<char>)
    ensures
        !a.contains('\n') ==> nonblank_lines(a) == if trim(a).len() > 0 {
            seq![trim(a)]
        } else {
            Seq::<Seq<char>>::empty()
        },
        nonblank_lines(a + seq!['\n'] + b) == nonblank_lines(a) + nonblank_lines(b),
        !a.contains('\n') ==> nonblank_lines(a + seq!['\n']) == nonblank_lines(a),
{
    lemma_split_concat(a, b, '\n');
    lemma_keep_nonblank_concat(split(a, '\n'), split(b, '\n'));
    if !a.contains('\n') {
        lemma_split_no_sep(a, '\n');
        assert(seq![a].drop_last() =~= Seq::<Seq<char>>::empty());
        assert(keep_nonblank(Seq::<Seq<char>>::empty()) =~= Seq::<Seq<char>>::empty());
        assert(seq![a].last() == a);
        assert(keep_nonblank(seq![a]) =~= if trim(a).len() > 0 {
            seq![trim(a)]
        } else {
            Seq::<Seq<char>>::empty()
        });
        let e = Seq::<char>::empty();
        lemma_split_concat(a, e, '\n');
        lemma_keep_nonblank_concat(split(a, '\n'), split(e, '\n'));
        assert(a + seq!['\n'] + e =~= a + seq!['\n']);
        assert(split(e, '\n') == seq![e]);
        assert(seq![e].drop_last() =~= Seq::<Seq<char>>::empty());
        assert(trim(e) =~= e);
        assert(keep_nonblank(seq![e]) =~= Seq::<Seq<char>>::empty());
        assert(nonblank_lines(a + seq!['\n']) =~= nonblank_lines(a));
    }
}

// ---------------------------------------------------------------------------
// JSON batches

/// The JSON for a batch is a JSON array: `[]` when empty, `[` object `]` for
/// one outcome, and each further outcome's object comes after exactly one
/// comma before the closing bracket.
pub proof fn law_json_array_shape(os: Seq<OutcomeView>, o: OutcomeView)
    ensures
        json_array(Seq::<OutcomeView>::empty()) == seq!['[', ']'],
        json_array(seq![o]) == seq!['['] + json_outcome(o) + seq![']'],
        os.len() > 0 ==> json_array(os.push(o)) == json_array(os).drop_last() + seq![','] + json_outcome(o)
            + seq![']'],
{
    reveal_strlit("[");
    reveal_strlit("]");
    reveal_strlit(",");
    let f = |x: OutcomeView| json_outcome(x);
    assert(Seq::<OutcomeView>::empty().map_values(f) =~= Seq::<Seq<char>>::empty());
    assert(json_array(Seq::<OutcomeView>::empty()) =~= seq!['[', ']']);
    assert(seq![o].map_values(f) =~= seq![json_outcome(o)]);
    assert(json_array(seq![o]) =~= seq!['['] + json_outcome(o) + seq![']']);
    if os.len() > 0 {
        let m = os.map_values(f);
        assert(os.push(o).map_values(f) =~= m.push(json_outcome(o)));
        assert(m.push(json_outcome(o)).drop_last() =~= m);
        assert(json_array(os).drop_last() =~= seq!['['] + join(m, ","@));
        assert(json_array(os.push(o)) =~= json_array(os).drop_last() + seq![','] + json_outcome(o)
            + seq![']']);
    }
}

// ---------------------------------------------------------------------------
// Directionals

proof fn lemma_directional_from(word: Seq<char>, i: int)
    requires
        0 <= i <= 8,
    ensures
        directional_from(word, i) matches Some(a) ==> exists|j: int|
            i <= j < 8 && eq_ignore_ascii_case(word, #[trigger] directional_names()[j]) && a
                == directional_abbrevs()[j],
        forall|j: int|
            i <= j < 8 && eq_ignore_ascii_case(word, #[trigger] directional_names()[j])
                ==> directional_from(word, i) is Some,
    decreases 8 - i,
{
    if i < 8 {
        lemma_directional_from(word, i + 1);
    }
}

/// A street word counts as a spelled-out directional exactly when it is one
/// of North, South, East, West, Northeast, Northwest, Southeast, Southwest up
/// to ASCII case, and it is then reported with that direction's abbreviation.
pub proof fn law_directional_is_whole_word(word: Seq<char>)
    ensures
        directional_abbrev(word) matches Some(a) ==> exists|j: int|
            0 <= j < 8 && eq_ignore_ascii_case(word, #[trigger] directional_names()[j]) && a
                == directional_abbrevs()[j],
        (exists|j: int| 0 <= j < 8 && eq_ignore_ascii_case(word, #[trigger] directional_names()[j]))
            ==> directional_abbrev(word) is Some,
        directional_names() == seq![
            "NORTH"@, "SOUTH"@, "EAST"@, "WEST"@, "NORTHEAST"@, "NORTHWEST"@, "SOUTHEAST"@,
            "SOUTHWEST"@,
        ],
        directional_abbrevs() == seq!["N"@, "S"@, "E"@, "W"@, "NE"@, "NW"@, "SE"@, "SW"@],
{
    lemma_directional_from(word, 0);
}

// ---------------------------------------------------------------------------
// The human report

/// The report starts with the fields exactly as parsed, each whole on its
/// own line (folded street segments included), and ends with the verdict.
pub proof fn law_human_report_shows_fields(o: OutcomeView)
    ensures
        o.address matches Some(a) ==> ({
            let head = "street: "@ + a.street + seq!['\n'] + "city:   "@ + a.city + seq!['\n']
                + "state:  "@ + a.state + seq!['\n'] + "zip:    "@ + zip_text(a) + seq!['\n'];
            human_report(o).subrange(0, head.len() as int) == head
        }),
        o.address is None ==> human_report(o).subrange(0, 28) == "(no fields could be parsed)\n"@,
        o.errors.len() == 0 ==> human_report(o).subrange(
            human_report(o).len() - 13,
            human_report(o).len() as int,
        ) == "valid:  true\n"@,
        o.errors.len() > 0 ==> human_report(o).subrange(
            human_report(o).len() - 14,
            human_report(o).len() as int,
        ) == "valid:  false\n"@,
{
    reveal_strlit("\n");
    reveal_strlit("(no fields could be parsed)\n");
    reveal_strlit("valid:  true\n");
    reveal_strlit("valid:  false\n");
    let r = human_report(o);
    match o.address {
        Some(a) => {
            let head = "street: "@ + a.street + seq!['\n'] + "city:   "@ + a.city + seq!['\n']
                + "state:  "@ + a.state + seq!['\n'] + "zip:    "@ + zip_text(a) + seq!['\n'];
            assert("\n"@ =~= seq!['\n']);
            assert(r.subrange(0, head.len() as int) =~= head);
        },
        None => {
            assert(r.subrange(0, 28) =~= "(no fields could be parsed)\n"@);
        },
    }
    if o.errors.len() == 0 {
        assert(r.subrange(r.len() - 13, r.len() as int) =~= "valid:  true\n"@);
    } else {
        assert(r.subrange(r.len() - 14, r.len() as int) =~= "valid:  false\n"@);
    }
}

// ---------------------------------------------------------------------------
// The whitespace split

proof fn lemma_words_of_join(ws: Seq<Seq<char>>)
    requires
        forall|i: int| 0 <= i < ws.len() ==> (#[trigger] ws[i]).len() > 0,
        forall|i: int, j: int| 0 <= i < ws.len() && 0 <= j < ws[i].len() ==> !is_ws(#[trigger] ws[i][j]),
    ensures
        words(join(ws, space())) == ws,
    decreases ws.len(),
{
    if ws.len() == 0 {
        assert(words(join(ws, space())) =~= ws);
    } else if ws.len() == 1 {
        assert forall|j: int| 0 <= j < ws[0].len() implies !is_ws(#[trigger] ws[0][j]) by {}
        lemma_words_single(ws[0]);
        assert(words(join(ws, space())) =~= ws);
    } else {
        let dl = ws.drop_last();
        assert forall|i: int| 0 <= i < dl.len() implies (#[trigger] dl[i]).len() > 0 by {
            assert(dl[i] == ws[i]);
        }
        assert forall|i: int, j: int| 0 <= i < dl.len() && 0 <= j < dl[i].len() implies !is_ws(
            #[trigger] dl[i][j],
        ) by {
            assert(dl[i] == ws[i]);
        }
        lemma_words_of_join(dl);
        let last = ws.last();
        assert(last == ws[ws.len() - 1]);
        assert forall|j: int| 0 <= j < last.len() implies !is_ws(#[trigger] last[j]) by {
            assert(!is_ws(ws[ws.len() - 1][j]));
        }
        lemma_words_single(last);
        assert(join(ws, space()) =~= join(dl, space()) + seq![' '] + last);
        lemma_words_concat(join(dl, space()), ' ', last);
        assert(words(join(ws, space())) =~= ws);
    }
}

proof fn lemma_last_suffix_before_is_last(toks: Seq<Seq<char>>, n: int)
    ensures
        last_suffix_before(toks, n) matches Some(k) ==> is_standard_suffix(toks[k]) && forall|j: int|
            k < j < n ==> !is_standard_suffix(#[trigger] toks[j]),
        last_suffix_before(toks, n) is None ==> forall|j: int|
            0 <= j < n ==> !is_standard_suffix(#[trigger] toks[j]),
    decreases n,
{
    if n > 0 && !is_standard_suffix(toks[n - 1]) {
        lemma_last_suffix_before_is_last(toks, n - 1);
    }
}

/// The whitespace split keeps every word, in order: the street's words, then
/// the city's, then state and ZIP are exactly the line's words. The street
/// ends in a standard suffix, the city has at least one word, and no city
/// word before its last one is a standard suffix (the street ends at the
/// rightmost suffix that leaves a word for the city).
pub proof fn law_whitespace_split_keeps_words(body: Seq<char>)
    requires
        whitespace_split(body) is Some,
    ensures
        ({
            let seg = whitespace_split(body)->0;
            &&& words(seg.street) + words(seg.city) + words(seg.tail) == words(body)
            &&& words(seg.tail).len() == 2
            &&& words(seg.city).len() >= 1
            &&& is_standard_suffix(words(seg.street).last())
            &&& forall|i: int|
                0 <= i < words(seg.city).len() - 1 ==> !is_standard_suffix(
                    #[trigger] words(seg.city)[i],
                )
            &&& seg.primary == seg.street
            &&& seg.street == join(words(seg.street), seq![' '])
            &&& seg.city == join(words(seg.city), seq![' '])
            &&& seg.tail == join(words(seg.tail), seq![' '])
        }),
{
    let toks = words(body);
    lemma_words_elems(body, ',');
    let si = toks.len() - 2;
    lemma_last_suffix_before_range(toks, si - 1);
    lemma_last_suffix_before_is_last(toks, si - 1);
    let k = last_suffix_before(toks, si - 1)->0;
    let seg = whitespace_split(body)->0;
    let st = toks.subrange(0, k + 1);
    let ci = toks.subrange(k + 1, si);
    let tl = toks.subrange(si, toks.len() as int);
    assert forall|i: int, j: int| 0 <= i < st.len() && 0 <= j < st[i].len() implies !is_ws(
        #[trigger] st[i][j],
    ) by {
        assert(st[i] == toks[i]);
    }
    assert forall|i: int| 0 <= i < st.len() implies (#[trigger] st[i]).len() > 0 by {
        assert(st[i] == toks[i]);
    }
    assert forall|i: int, j: int| 0 <= i < ci.len() && 0 <= j < ci[i].len() implies !is_ws(
        #[trigger] ci[i][j],
    ) by {
        assert(ci[i] == toks[k + 1 + i]);
    }
    assert forall|i: int| 0 <= i < ci.len() implies (#[trigger] ci[i]).len() > 0 by {
        assert(ci[i] == toks[k + 1 + i]);
    }
    lemma_words_of_join(st);
    lemma_words_of_join(ci);
    let a = toks[si];
    let b = toks[toks.len() - 1];
    assert forall|j: int| 0 <= j < a.len() implies !is_ws(#[trigger] a[j]) by {
        assert(!is_ws(toks[si][j]));
    }
    assert forall|j: int| 0 <= j < b.len() implies !is_ws(#[trigger] b[j]) by {
        assert(!is_ws(toks[toks.len() - 1][j]));
    }
    lemma_words_single(a);
    lemma_words_single(b);
    lemma_words_concat(a, ' ', b);
    assert(seg.tail =~= a + seq![' '] + b);
    assert(words(seg.tail) =~= seq![a, b]);
    assert(space() =~= seq![' ']);
    assert(seq![a, b].drop_last() =~= seq![a]);
    assert(seq![a, b].last() == b);
    assert(join(seq![a], seq![' ']) == a);
    assert(join(seq![a, b], seq![' ']) =~= a + seq![' '] + b);
    assert(st + ci + seq![a, b] =~= toks);
    assert(words(seg.street).last() == toks[k]);
    assert forall|i: int| 0 <= i < words(seg.city).len() - 1 implies !is_standard_suffix(
        #[trigger] words(seg.city)[i],
    ) by {
        assert(words(seg.city)[i] == toks[k + 1 + i]);
    }
}

/// One more problem adds one "error:" line, just before the verdict, which
/// then reads false; and a PO box number gets its own line right after the
/// ZIP line.
pub proof fn law_human_report_error_lines(o: OutcomeView, e: Seq<char>)
    ensures
        ({
            let o2 = OutcomeView { input: o.input, address: o.address, errors: o.errors.push(e) };
            let r = human_report(o);
            let v = if o.errors.len() == 0 {
                13int
            } else {
                14int
            };
            human_report(o2) == r.subrange(0, r.len() - v) + "error:  "@ + e + seq!['\n']
                + "valid:  false\n"@
        }),
        o.address matches Some(a) ==> (a.po_box matches Some(p) ==> ({
            let head = "street: "@ + a.street + seq!['\n'] + "city:   "@ + a.city + seq!['\n']
                + "state:  "@ + a.state + seq!['\n'] + "zip:    "@ + zip_text(a) + seq!['\n'];
            let line = "po box: "@ + p + seq!['\n'];
            human_report(o).subrange(head.len() as int, (head.len() + line.len()) as int) == line
        })),
{
    reveal_strlit("\n");
    reveal_strlit("valid:  true\n");
    reveal_strlit("valid:  false\n");
    assert("\n"@ =~= seq!['\n']);
    let o2 = OutcomeView { input: o.input, address: o.address, errors: o.errors.push(e) };
    assert(o2.errors.drop_last() =~= o.errors);
    let r = human_report(o);
    let v: int = if o.errors.len() == 0 {
        13
    } else {
        14
    };
    assert(human_report(o2) =~= r.subrange(0, r.len() - v) + "error:  "@ + e + seq!['\n']
        + "valid:  false\n"@);
    match o.address {
        Some(a) => {
            match a.po_box {
                Some(p) => {
                    let head = "street: "@ + a.street + seq!['\n'] + "city:   "@ + a.city
                        + seq!['\n'] + "state:  "@ + a.state + seq!['\n'] + "zip:    "@ + zip_text(
                        a,
                    ) + seq!['\n'];
                    let line = "po box: "@ + p + seq!['\n'];
                    assert(human_report(o).subrange(head.len() as int, (head.len() + line.len()) as int)
                        =~= line);
                },
                None => {},
            }
        },
        None => {},
    }
}

} // verus!
