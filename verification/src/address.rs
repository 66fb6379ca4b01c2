//! Splitting a single-line US mailing address into street, city, state and
//! ZIP, and checking its structure.

use vstd::prelude::*;
use crate::codes::{
    directional_abbrev, directional_abbrev_chars, is_country_name, is_country_name_chars,
    is_standard_suffix, is_standard_suffix_chars, is_state_code_chars, po_box_prefix,
    po_box_prefix_chars, upper_case, state_codes, to_uppercase_chars,
};
use crate::text::{
    append_all, chars_are_digits, chars_of, extend, find_char, find_from, is_digits, join,
    join_chars, remove_char, remove_char_chars, rfind_below, rfind_char, slice_chars, split,
    split_chars, string_of, trim, trim_chars, views, words, words_chars, has_no_ascii_lower,
};

verus! {

/// The fields an address was split into.
#[derive(Debug, Clone)]
pub struct ParsedAddress {
    pub street: String,
    pub city: String,
    pub state: String,
    pub zip5: String,
    pub zip4: Option<String>,
    /// The box number when the street line is a PO box ("PO Box 123",
    /// "P.O. Box 123", "Post Office Box 123", ...); `street` still holds the
    /// full line either way.
    pub po_box: Option<String>,
}

/// The result of parsing one line: the trimmed input, the fields if the line
/// could be split into them, and every problem found.
#[derive(Debug)]
pub struct ParseOutcome {
    pub input: String,
    pub address: Option<ParsedAddress>,
    pub errors: Vec<String>,
}

/// The mathematical content of a `ParsedAddress`.
pub struct AddressView {
    pub street: Seq<char>,
    pub city: Seq<char>,
    pub state: Seq<char>,
    pub zip5: Seq<char>,
    pub zip4: Option<Seq<char>>,
    pub po_box: Option<Seq<char>>,
}

/// The mathematical content of a `ParseOutcome`.
pub struct OutcomeView {
    pub input: Seq<char>,
    pub address: Option<AddressView>,
    pub errors: Seq<Seq<char>>,
}

pub open spec fn opt_view(o: Option<String>) -> Option<Seq<char>> {
    match o {
        Some(s) => Some(s@),
        None => None,
    }
}

pub open spec fn string_views(v: Seq<String>) -> Seq<Seq<char>> {
    v.map_values(|s: String| s@)
}

impl View for ParsedAddress {
    type V = AddressView;

    open spec fn view(&self) -> AddressView {
        AddressView {
            street: self.street@,
            city: self.city@,
            state: self.state@,
            zip5: self.zip5@,
            zip4: opt_view(self.zip4),
            po_box: opt_view(self.po_box),
        }
    }
}

impl View for ParseOutcome {
    type V = OutcomeView;

    open spec fn view(&self) -> OutcomeView {
        OutcomeView {
            input: self.input@,
            address: match self.address {
                Some(a) => Some(a@),
                None => None,
            },
            errors: string_views(self.errors@),
        }
    }
}

// ---------------------------------------------------------------------------
// Error messages

pub open spec fn msg_unsplittable() -> Seq<char> {
    "expected at least three non-empty comma-separated segments (street, city, state zip), or a whitespace-only address ending in STATE ZIP with a recognizable street suffix"@
}

pub open spec fn msg_no_box_number() -> Seq<char> {
    "PO box line has no box number"@
}

pub open spec fn msg_no_suffix() -> Seq<char> {
    "street has no suffix to check in --strict mode"@
}

pub open spec fn msg_not_suffix(word: Seq<char>) -> Seq<char> {
    "'"@ + word + "' is not a standard USPS street suffix abbreviation"@
}

pub open spec fn msg_directional(word: Seq<char>, abbrev: Seq<char>) -> Seq<char> {
    "'"@ + word + "' should be abbreviated as '"@ + abbrev + "' in --strict mode"@
}

pub open spec fn msg_tail(tail: Seq<char>) -> Seq<char> {
    "could not split '"@ + tail + "' into a state and a ZIP code"@
}

pub open spec fn msg_state(state: Seq<char>) -> Seq<char> {
    "'"@ + state + "' is not a recognized state or territory code"@
}

pub open spec fn msg_zip5(zip5: Seq<char>) -> Seq<char> {
    "'"@ + zip5 + "' is not a valid 5-digit ZIP code"@
}

pub open spec fn msg_zip4(zip4: Seq<char>) -> Seq<char> {
    "'"@ + zip4 + "' is not a valid 4-digit ZIP+4 suffix"@
}

fn quoted(pre: &str, mid: &Vec<char>, post: &str) -> (r: Vec<char>)
    ensures
        r@ == pre@ + mid@ + post@,
{
    let mut r = chars_of(pre);
    extend(&mut r, mid);
    let p = chars_of(post);
    extend(&mut r, &p);
    r
}

// ---------------------------------------------------------------------------
// The meaning of parsing

/// The separator that joins folded street segments.
pub open spec fn comma_space() -> Seq<char> {
    seq![',', ' ']
}

pub open spec fn space() -> Seq<char> {
    seq![' ']
}

/// A trailing country designator after the last comma is dropped, with the
/// whitespace before that comma.
pub open spec fn strip_country(t: Seq<char>) -> Seq<char> {
    match rfind_below(t, ',', t.len() as int) {
        Some(k) => if is_country_name(trim(t.subrange(k + 1, t.len() as int))) {
            trim(t.subrange(0, k))
        } else {
            t
        },
        None => t,
    }
}

/// The trimmed comma-separated segments of `body`.
pub open spec fn comma_parts(body: Seq<char>) -> Seq<Seq<char>> {
    split(body, ',').map_values(|p: Seq<char>| trim(p))
}

pub open spec fn has_empty(parts: Seq<Seq<char>>) -> bool {
    exists|i: int| 0 <= i < parts.len() && (#[trigger] parts[i]).len() == 0
}

/// The last index below `n` whose word is a standard street suffix.
pub open spec fn last_suffix_before(toks: Seq<Seq<char>>, n: int) -> Option<int>
    decreases n,
{
    if n <= 0 {
        None
    } else if is_standard_suffix(toks[n - 1]) {
        Some(n - 1)
    } else {
        last_suffix_before(toks, n - 1)
    }
}

/// How a line was split: the street (folded segments included), its first
/// segment, the city and the "STATE ZIP" tail.
pub struct Segments {
    pub street: Seq<char>,
    pub primary: Seq<char>,
    pub city: Seq<char>,
    pub tail: Seq<char>,
}

/// The split of a comma-less line by whitespace alone: the last two words are
/// state and ZIP, and the street ends at the rightmost other word (the last
/// one left for the city) that is a standard street suffix.
pub open spec fn whitespace_split(body: Seq<char>) -> Option<Segments> {
    let toks = words(body);
    if toks.len() < 5 {
        None
    } else {
        let si = toks.len() - 2;
        match last_suffix_before(toks, si - 1) {
            None => None,
            Some(k) => {
                let street = join(toks.subrange(0, k + 1), space());
                Some(
                    Segments {
                        street: street,
                        primary: street,
                        city: join(toks.subrange(k + 1, si), space()),
                        tail: toks[si] + space() + toks[toks.len() - 1],
                    },
                )
            },
        }
    }
}

/// STREET, CITY, STATE ZIP with any earlier segments folded into the street;
/// or, without three non-empty segments, the whitespace split.
pub open spec fn segments(body: Seq<char>) -> Option<Segments> {
    let parts = comma_parts(body);
    let n = parts.len();
    if n < 3 || has_empty(parts) {
        whitespace_split(body)
    } else {
        Some(
            Segments {
                street: join(parts.subrange(0, n - 2), comma_space()),
                primary: parts[0],
                city: parts[n - 2],
                tail: parts[n - 1],
            },
        )
    }
}

/// A street word with its periods removed, upper-cased.
pub open spec fn normalize_word(w: Seq<char>) -> Seq<char> {
    upper_case(remove_char(w, '.'))
}

/// `None`: not a PO box line; `Some(None)`: a PO box prefix with nothing after
/// it; `Some(Some(n))`: a PO box with number `n` (the words after the prefix).
pub open spec fn detect_po_box(street: Seq<char>) -> Option<Option<Seq<char>>> {
    let ws = words(street);
    if ws.len() == 0 {
        None
    } else {
        match po_box_prefix(ws.map_values(|w: Seq<char>| normalize_word(w))) {
            None => None,
            Some(k) => {
                let num = join(ws.subrange(k, ws.len() as int), space());
                if num.len() == 0 {
                    Some(None)
                } else {
                    Some(Some(num))
                }
            },
        }
    }
}

pub open spec fn box_number(pb: Option<Option<Seq<char>>>) -> Option<Seq<char>> {
    match pb {
        Some(Some(n)) => Some(n),
        _ => None,
    }
}

pub open spec fn box_errors(pb: Option<Option<Seq<char>>>) -> Seq<Seq<char>> {
    if pb == Some(None::<Seq<char>>) {
        seq![msg_no_box_number()]
    } else {
        Seq::empty()
    }
}

/// In strict mode the last word of the street line must be a standard suffix.
pub open spec fn suffix_errors(primary: Seq<char>) -> Seq<Seq<char>> {
    let ws = words(primary);
    if ws.len() == 0 {
        seq![msg_no_suffix()]
    } else if is_standard_suffix(ws.last()) {
        Seq::empty()
    } else {
        seq![msg_not_suffix(ws.last())]
    }
}

/// In strict mode every spelled-out directional among `ws` is an error.
pub open spec fn directional_errors(ws: Seq<Seq<char>>) -> Seq<Seq<char>>
    decreases ws.len(),
{
    if ws.len() == 0 {
        Seq::empty()
    } else {
        let rest = directional_errors(ws.drop_last());
        match directional_abbrev(ws.last()) {
            Some(a) => rest.push(msg_directional(ws.last(), a)),
            None => rest,
        }
    }
}

/// A ZIP token is five digits, optionally followed by `-` and four digits.
pub open spec fn split_zip(tok: Seq<char>) -> Result<(Seq<char>, Option<Seq<char>>), Seq<char>> {
    let (z5, z4) = match find_from(tok, '-', 0) {
        Some(k) => (tok.subrange(0, k), Some(tok.subrange(k + 1, tok.len() as int))),
        None => (tok, None),
    };
    if !is_digits(z5, 5) {
        Err(msg_zip5(z5))
    } else {
        match z4 {
            Some(z) => if is_digits(z, 4) {
                Ok((z5, Some(z)))
            } else {
                Err(msg_zip4(z))
            },
            None => Ok((z5, None)),
        }
    }
}

/// What parsing `input` gives.
pub open spec fn spec_parse(input: Seq<char>, strict: bool) -> OutcomeView {
    let t = trim(input);
    match segments(strip_country(t)) {
        None => OutcomeView { input: t, address: None, errors: seq![msg_unsplittable()] },
        Some(seg) => {
            let pb = detect_po_box(seg.primary);
            let errs = box_errors(pb) + (if strict && pb is None {
                suffix_errors(seg.primary)
            } else {
                Seq::empty()
            }) + (if strict {
                directional_errors(words(seg.primary))
            } else {
                Seq::empty()
            });
            let tt = words(seg.tail);
            if tt.len() < 2 {
                OutcomeView { input: t, address: None, errors: errs.push(msg_tail(seg.tail)) }
            } else {
                let state = upper_case(join(tt.drop_last(), space()));
                let state_errs = if state_codes().contains(state) {
                    Seq::empty()
                } else {
                    seq![msg_state(state)]
                };
                let (z5, z4, zip_errs) = match split_zip(tt.last()) {
                    Ok((a, b)) => (a, b, Seq::<Seq<char>>::empty()),
                    Err(m) => (Seq::<char>::empty(), None, seq![m]),
                };
                OutcomeView {
                    input: t,
                    address: Some(
                        AddressView {
                            street: seg.street,
                            city: seg.city,
                            state: state,
                            zip5: z5,
                            zip4: z4,
                            po_box: box_number(pb),
                        },
                    ),
                    errors: errs + state_errs + zip_errs,
                }
            }
        },
    }
}

// ---------------------------------------------------------------------------
// Computing it

fn space_chars() -> (r: Vec<char>)
    ensures
        r@ == space(),
{
    let mut r: Vec<char> = Vec::new();
    r.push(' ');
    r
}

fn comma_space_chars() -> (r: Vec<char>)
    ensures
        r@ == comma_space(),
{
    let mut r: Vec<char> = Vec::new();
    r.push(',');
    r.push(' ');
    r
}

fn strip_country_chars(t: &Vec<char>) -> (r: Vec<char>)
    ensures
        r@ == strip_country(t@),
{
    match rfind_char(t, ',') {
        Some(k) => {
            assert(k < t.len());
            let seg = slice_chars(t, k + 1, t.len());
            let ts = trim_chars(&seg);
            if is_country_name_chars(&ts) {
                let pre = slice_chars(t, 0, k);
                trim_chars(&pre)
            } else {
                assert(t@.subrange(0, t@.len() as int) == t@);
                slice_chars(t, 0, t.len())
            }
        },
        None => {
            assert(t@.subrange(0, t@.len() as int) == t@);
            slice_chars(t, 0, t.len())
        },
    }
}

fn comma_parts_chars(body: &Vec<char>) -> (r: Vec<Vec<char>>)
    ensures
        views(r@) == comma_parts(body@),
{
    let pieces = split_chars(body, ',');
    let mut r: Vec<Vec<char>> = Vec::new();
    for i in 0..pieces.len()
        invariant
            views(pieces@) == split(body@, ','),
            views(r@) == split(body@, ',').take(i as int).map_values(|p: Seq<char>| trim(p)),
    {
        let t = trim_chars(&pieces[i]);
        assert(pieces@[i as int]@ == views(pieces@)[i as int]);
        let ghost before = r@;
        r.push(t);
        assert(views(r@) == views(before).push(t@));
        assert(views(r@) =~= split(body@, ',').take(i + 1).map_values(|p: Seq<char>| trim(p)));
    }
    assert(split(body@, ',').take(pieces.len() as int) == split(body@, ','));
    r
}

fn any_empty(parts: &Vec<Vec<char>>) -> (r: bool)
    ensures
        r == has_empty(views(parts@)),
{
    for i in 0..parts.len()
        invariant
            forall|j: int| 0 <= j < i ==> (#[trigger] views(parts@)[j]).len() != 0,
    {
        if parts[i].len() == 0 {
            assert(views(parts@)[i as int].len() == 0);
            return true;
        }
    }
    false
}

type SegmentsExec = (Vec<char>, Vec<char>, Vec<char>, Vec<char>);

pub open spec fn segments_view(s: SegmentsExec) -> Segments {
    Segments { street: s.0@, primary: s.1@, city: s.2@, tail: s.3@ }
}

fn whitespace_split_chars(body: &Vec<char>) -> (r: Option<SegmentsExec>)
    ensures
        match r {
            Some(s) => whitespace_split(body@) == Some(segments_view(s)),
            None => whitespace_split(body@) is None,
        },
{
    let toks = words_chars(body);
    if toks.len() < 5 {
        return None;
    }
    let si = toks.len() - 2;
    let mut found: Option<usize> = None;
    for i in 0..si - 1
        invariant
            si == toks.len() - 2,
            toks.len() >= 5,
            match found {
                Some(k) => last_suffix_before(views(toks@), i as int) == Some(k as int) && k < i,
                None => last_suffix_before(views(toks@), i as int) is None,
            },
    {
        if is_standard_suffix_chars(&toks[i]) {
            found = Some(i);
        }
    }
    match found {
        None => None,
        Some(k) => {
            let sp = space_chars();
            let street = join_chars(&toks, 0, k + 1, &sp);
            let primary = join_chars(&toks, 0, k + 1, &sp);
            let city = join_chars(&toks, k + 1, si, &sp);
            let mut tail = slice_chars(&toks[si], 0, toks[si].len());
            tail.push(' ');
            extend(&mut tail, &toks[si + 1]);
            assert(toks[si as int]@.subrange(0, toks[si as int]@.len() as int) == toks[si as int]@);
            assert(tail@ =~= views(toks@)[si as int] + space() + views(toks@)[toks.len() - 1]);
            Some((street, primary, city, tail))
        },
    }
}

fn segments_chars(body: &Vec<char>) -> (r: Option<SegmentsExec>)
    ensures
        match r {
            Some(s) => segments(body@) == Some(segments_view(s)),
            None => segments(body@) is None,
        },
{
    let parts = comma_parts_chars(body);
    let n = parts.len();
    if n < 3 || any_empty(&parts) {
        whitespace_split_chars(body)
    } else {
        let cs = comma_space_chars();
        let street = join_chars(&parts, 0, n - 2, &cs);
        let primary = slice_chars(&parts[0], 0, parts[0].len());
        let city = slice_chars(&parts[n - 2], 0, parts[n - 2].len());
        let tail = slice_chars(&parts[n - 1], 0, parts[n - 1].len());
        assert(primary@ =~= views(parts@)[0]);
        assert(city@ =~= views(parts@)[n - 2]);
        assert(tail@ =~= views(parts@)[n - 1]);
        Some((street, primary, city, tail))
    }
}

fn detect_po_box_chars(street: &Vec<char>) -> (r: Option<Option<Vec<char>>>)
    ensures
        match r {
            None => detect_po_box(street@) is None,
            Some(None) => detect_po_box(street@) == Some(None::<Seq<char>>),
            Some(Some(n)) => detect_po_box(street@) == Some(Some(n@)),
        },
{
    let ws = words_chars(street);
    if ws.len() == 0 {
        return None;
    }
    let ghost wv = views(ws@);
    let mut norm: Vec<Vec<char>> = Vec::new();
    for i in 0..ws.len()
        invariant
            wv == views(ws@),
            views(norm@) == wv.take(i as int).map_values(|w: Seq<char>| normalize_word(w)),
    {
        let bare = remove_char_chars(&ws[i], '.');
        let up = to_uppercase_chars(&bare);
        assert(ws@[i as int]@ == wv[i as int]);
        let ghost before = norm@;
        norm.push(up);
        assert(views(norm@) == views(before).push(up@));
        assert(views(norm@) =~= wv.take(i + 1).map_values(|w: Seq<char>| normalize_word(w)));
    }
    assert(wv.take(ws.len() as int) == wv);
    match po_box_prefix_chars(&norm) {
        None => None,
        Some(k) => {
            let sp = space_chars();
            let num = join_chars(&ws, k, ws.len(), &sp);
            if num.len() == 0 {
                Some(None)
            } else {
                Some(Some(num))
            }
        },
    }
}

fn suffix_errors_chars(primary: &Vec<char>) -> (r: Vec<Vec<char>>)
    ensures
        views(r@) == suffix_errors(primary@),
{
    let ws = words_chars(primary);
    let mut r: Vec<Vec<char>> = Vec::new();
    if ws.len() == 0 {
        r.push(chars_of("street has no suffix to check in --strict mode"));
    } else {
        let last = &ws[ws.len() - 1];
        assert(last@ == views(ws@).last());
        if !is_standard_suffix_chars(last) {
            r.push(quoted("'", last, "' is not a standard USPS street suffix abbreviation"));
        }
    }
    assert(views(r@) =~= suffix_errors(primary@));
    r
}

fn directional_errors_chars(ws: &Vec<Vec<char>>) -> (r: Vec<Vec<char>>)
    ensures
        views(r@) == directional_errors(views(ws@)),
{
    let ghost wv = views(ws@);
    let mut r: Vec<Vec<char>> = Vec::new();
    for i in 0..ws.len()
        invariant
            wv == views(ws@),
            views(r@) == directional_errors(wv.take(i as int)),
    {
        assert(wv.take(i + 1).drop_last() =~= wv.take(i as int));
        assert(ws@[i as int]@ == wv[i as int]);
        match directional_abbrev_chars(&ws[i]) {
            Some(a) => {
                let m = quoted("'", &ws[i], "' should be abbreviated as '");
                let mut m2 = m;
                extend(&mut m2, &a);
                let tail = chars_of("' in --strict mode");
                extend(&mut m2, &tail);
                let ghost before = r@;
                r.push(m2);
                assert(views(r@) == views(before).push(m2@));
            },
            None => {},
        }
    }
    assert(wv.take(ws.len() as int) == wv);
    r
}

fn split_zip_chars(tok: &Vec<char>) -> (r: Result<(Vec<char>, Option<Vec<char>>), Vec<char>>)
    ensures
        match r {
            Ok((a, Some(b))) => split_zip(tok@) == Ok::<_, Seq<char>>((a@, Some(b@))),
            Ok((a, None)) => split_zip(tok@) == Ok::<_, Seq<char>>((a@, None::<Seq<char>>)),
            Err(m) => split_zip(tok@) == Err::<(Seq<char>, Option<Seq<char>>), _>(m@),
        },
{
    let (z5, z4) = match find_char(tok, '-') {
        Some(k) => (slice_chars(tok, 0, k), Some(slice_chars(tok, k + 1, tok.len()))),
        None => {
            assert(tok@.subrange(0, tok@.len() as int) == tok@);
            (slice_chars(tok, 0, tok.len()), None)
        },
    };
    if !chars_are_digits(&z5, 5) {
        return Err(quoted("'", &z5, "' is not a valid 5-digit ZIP code"));
    }
    match z4 {
        Some(z) => {
            if chars_are_digits(&z, 4) {
                Ok((z5, Some(z)))
            } else {
                Err(quoted("'", &z, "' is not a valid 4-digit ZIP+4 suffix"))
            }
        },
        None => Ok((z5, None)),
    }
}

fn strings_of(v: Vec<Vec<char>>) -> (r: Vec<String>)
    ensures
        string_views(r@) == views(v@),
{
    let mut r: Vec<String> = Vec::new();
    for i in 0..v.len()
        invariant
            string_views(r@) == views(v@).take(i as int),
    {
        let s = string_of(&v[i]);
        let ghost before = r@;
        r.push(s);
        assert(string_views(r@) == string_views(before).push(s@));
        assert(views(v@).take(i + 1) =~= views(v@).take(i as int).push(v@[i as int]@));
    }
    assert(views(v@).take(v.len() as int) == views(v@));
    r
}

fn opt_string(o: Option<Vec<char>>) -> (r: Option<String>)
    ensures
        opt_view(r) == match o {
            Some(v) => Some(v@),
            None => None::<Seq<char>>,
        },
{
    match o {
        Some(v) => Some(string_of(&v)),
        None => None,
    }
}

/// Parses one address line, written STREET, CITY, STATE ZIP[-ZIP4]. Segments
/// before the last two are folded into the street; a trailing country
/// designator after the last comma is dropped first; a line without three
/// non-empty segments is split by whitespace (see `whitespace_split`).
pub fn parse(input: &str, strict: bool) -> (r: ParseOutcome)
    ensures
        r@ == spec_parse(input@, strict),
        r@.address matches Some(a) ==> has_no_ascii_lower(a.state),
{
    let chars = chars_of(input);
    parse_chars(&chars, strict)
}

fn parse_chars(input: &Vec<char>, strict: bool) -> (r: ParseOutcome)
    ensures
        r@ == spec_parse(input@, strict),
        r@.address matches Some(a) ==> has_no_ascii_lower(a.state),
{
    let t = trim_chars(input);
    let body = strip_country_chars(&t);
    let input_string = string_of(&t);
    let seg = match segments_chars(&body) {
        None => {
            let mut errors: Vec<Vec<char>> = Vec::new();
            errors.push(
                chars_of(
                    "expected at least three non-empty comma-separated segments (street, city, state zip), or a whitespace-only address ending in STATE ZIP with a recognizable street suffix",
                ),
            );
            let r = ParseOutcome { input: input_string, address: None, errors: strings_of(errors) };
            assert(r@.errors =~= spec_parse(input@, strict).errors);
            return r;
        },
        Some(seg) => seg,
    };
    let (street, primary, city, tail) = seg;
    let pb = detect_po_box_chars(&primary);
    let ghost spb = detect_po_box(primary@);
    let mut errors: Vec<Vec<char>> = Vec::new();
    let mut po_box: Option<Vec<char>> = None;
    let mut is_box = false;
    match pb {
        Some(Some(n)) => {
            po_box = Some(n);
            is_box = true;
        },
        Some(None) => {
            errors.push(chars_of("PO box line has no box number"));
            is_box = true;
        },
        None => {},
    }
    assert(views(errors@) =~= box_errors(spb));
    assert(is_box == spb is Some);
    if strict && !is_box {
        let e = suffix_errors_chars(&primary);
        append_all(&mut errors, &e);
    }
    assert(views(errors@) =~= box_errors(spb) + (if strict && spb is None {
        suffix_errors(primary@)
    } else {
        Seq::empty()
    }));
    if strict {
        let pw = words_chars(&primary);
        let e = directional_errors_chars(&pw);
        append_all(&mut errors, &e);
    }
    let tt = words_chars(&tail);
    if tt.len() < 2 {
        errors.push(quoted("could not split '", &tail, "' into a state and a ZIP code"));
        let r = ParseOutcome { input: input_string, address: None, errors: strings_of(errors) };
        assert(r@.errors =~= spec_parse(input@, strict).errors);
        return r;
    }
    let sp = space_chars();
    let joined = join_chars(&tt, 0, tt.len() - 1, &sp);
    assert(views(tt@).subrange(0, tt.len() - 1) =~= views(tt@).drop_last());
    let state = to_uppercase_chars(&joined);
    if !is_state_code_chars(&state) {
        errors.push(quoted("'", &state, "' is not a recognized state or territory code"));
    }
    let last = &tt[tt.len() - 1];
    assert(last@ == views(tt@).last());
    let (zip5, zip4) = match split_zip_chars(last) {
        Ok(pair) => pair,
        Err(m) => {
            errors.push(m);
            (Vec::new(), None)
        },
    };
    let address = ParsedAddress {
        street: string_of(&street),
        city: string_of(&city),
        state: string_of(&state),
        zip5: string_of(&zip5),
        zip4: opt_string(zip4),
        po_box: opt_string(po_box),
    };
    let r = ParseOutcome { input: input_string, address: Some(address), errors: strings_of(errors) };
    assert(r@.errors =~= spec_parse(input@, strict).errors);
    r
}

/// The trimmed pieces of `ps` that are not empty, in order.
pub open spec fn keep_nonblank(ps: Seq<Seq<char>>) -> Seq<Seq<char>>
    decreases ps.len(),
{
    if ps.len() == 0 {
        Seq::empty()
    } else {
        let r = keep_nonblank(ps.drop_last());
        if trim(ps.last()).len() == 0 {
            r
        } else {
            r.push(trim(ps.last()))
        }
    }
}

/// The non-blank lines of `s`, trimmed.
pub open spec fn nonblank_lines(s: Seq<char>) -> Seq<Seq<char>> {
    keep_nonblank(split(s, '\n'))
}

pub open spec fn outcome_views(v: Seq<ParseOutcome>) -> Seq<OutcomeView> {
    v.map_values(|o: ParseOutcome| o@)
}

/// Parses each non-blank line of `input` on its own (batch input, one address
/// per line).
pub fn parse_lines(input: &str, strict: bool) -> (r: Vec<ParseOutcome>)
    ensures
        outcome_views(r@) == nonblank_lines(input@).map_values(|l: Seq<char>| spec_parse(l, strict)),
        forall|i: int|
            0 <= i < r@.len() ==> ((#[trigger] r@[i])@.address matches Some(a) ==> has_no_ascii_lower(
                a.state,
            )),
{
    let chars = chars_of(input);
    let lines = split_chars(&chars, '\n');
    let ghost lv = views(lines@);
    let mut r: Vec<ParseOutcome> = Vec::new();
    for i in 0..lines.len()
        invariant
            lv == views(lines@),
            lv == split(input@, '\n'),
            outcome_views(r@) == keep_nonblank(lv.take(i as int)).map_values(
                |l: Seq<char>| spec_parse(l, strict),
            ),
            forall|j: int|
                0 <= j < r@.len() ==> ((#[trigger] r@[j])@.address matches Some(a)
                    ==> has_no_ascii_lower(a.state)),
    {
        assert(lv.take(i + 1).drop_last() =~= lv.take(i as int));
        assert(lines@[i as int]@ == lv[i as int]);
        let line = trim_chars(&lines[i]);
        if line.len() > 0 {
            let o = parse_chars(&line, strict);
            let ghost before = r@;
            r.push(o);
            assert(outcome_views(r@) =~= keep_nonblank(lv.take(i + 1)).map_values(
                |l: Seq<char>| spec_parse(l, strict),
            )) by {
                assert(outcome_views(r@) == outcome_views(before).push(o@));
            }
        }
    }
    assert(lv.take(lines.len() as int) == lv);
    r
}

impl ParseOutcome {
    /// Parsed into fields, with nothing wrong.
    pub fn is_valid(&self) -> (r: bool)
        ensures
            r == (self@.errors.len() == 0 && self@.address is Some),
    {
        self.errors.len() == 0 && self.address.is_some()
    }
}

/// The ZIP part of a single line: ZIP, or ZIP-ZIP4.
pub open spec fn zip_text(a: AddressView) -> Seq<char> {
    a.zip5 + match a.zip4 {
        Some(z) => seq!['-'] + z,
        None => Seq::<char>::empty(),
    }
}

/// STREET, CITY, STATE ZIP[-ZIP4]: the form the parser accepts.
pub open spec fn single_line(a: AddressView) -> Seq<char> {
    a.street + comma_space() + a.city + comma_space() + a.state + space() + zip_text(a)
}

impl ParsedAddress {
    /// Rejoins the fields into a single line of the form the parser accepts.
    pub fn to_single_line(&self) -> (r: String)
        ensures
            r@ == single_line(self@),
    {
        let mut v = chars_of(self.street.as_str());
        let cs = comma_space_chars();
        extend(&mut v, &cs);
        let city = chars_of(self.city.as_str());
        extend(&mut v, &city);
        extend(&mut v, &cs);
        let state = chars_of(self.state.as_str());
        extend(&mut v, &state);
        v.push(' ');
        let zip5 = chars_of(self.zip5.as_str());
        extend(&mut v, &zip5);
        match &self.zip4 {
            Some(z) => {
                v.push('-');
                let z4 = chars_of(z.as_str());
                extend(&mut v, &z4);
            },
            None => {},
        }
        assert(v@ =~= single_line(self@));
        string_of(&v)
    }
}

} // verus!
