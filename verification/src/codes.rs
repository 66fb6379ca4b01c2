//! The fixed vocabularies the parser checks against: USPS state and territory
//! codes, USPS street suffix abbreviations, directionals and country names;
//! and the one outside computation, upper-casing.

use vstd::prelude::*;
use crate::text::{
    chars_eq, chars_eq_ignore_ascii_case, chars_of, eq_ignore_ascii_case, fold_ascii, is_ascii_digit,
    is_ws, trim_end_char, trim_end_char_chars, views, is_ascii_text, ascii_upper, has_no_ascii_lower,
};

verus! {

/// What `str::to_uppercase` returns on a string with these characters
/// (Unicode full upper-case mapping, which takes tables to state).
pub uninterp spec fn spec_to_uppercase(s: Seq<char>) -> Seq<char>;

/// Upper-casing as `str::to_uppercase` does it: on ASCII text this is ASCII
/// upper-casing ('a'-'z' become 'A'-'Z', every other character stays), as
/// Unicode's case mapping gives for those characters; other text is left to
/// the name `spec_to_uppercase`.
pub open spec fn upper_case(s: Seq<char>) -> Seq<char> {
    if is_ascii_text(s) {
        ascii_upper(s)
    } else {
        spec_to_uppercase(s)
    }
}

/// Calls `str::to_uppercase` on the characters of `v`. Trusted: the result is
/// a function of `v` alone; on ASCII text it is ASCII upper-casing (see
/// `upper_case`); and it never holds an ASCII lower-case letter, since Unicode
/// maps 'a'-'z' to 'A'-'Z' and no upper-case mapping yields one. Nothing more
/// is claimed of other text.
#[verifier::external_body]
pub(crate) fn to_uppercase_chars(v: &Vec<char>) -> (r: Vec<char>)
    ensures
        is_ascii_text(v@) ==> r@ == ascii_upper(v@),
        !is_ascii_text(v@) ==> r@ == spec_to_uppercase(v@),
        has_no_ascii_lower(r@),
{
    let s: String = v.iter().collect();
    s.to_uppercase().chars().collect()
}

/// Two-letter USPS state and territory codes.
pub open spec fn state_codes() -> Seq<Seq<char>> {
    seq![
        "AL"@, "AK"@, "AZ"@, "AR"@, "CA"@, "CO"@, "CT"@, "DE"@, "FL"@, "GA"@, "HI"@, "ID"@,
        "IL"@, "IN"@, "IA"@, "KS"@, "KY"@, "LA"@, "ME"@, "MD"@, "MA"@, "MI"@, "MN"@, "MS"@,
        "MO"@, "MT"@, "NE"@, "NV"@, "NH"@, "NJ"@, "NM"@, "NY"@, "NC"@, "ND"@, "OH"@, "OK"@,
        "OR"@, "PA"@, "RI"@, "SC"@, "SD"@, "TN"@, "TX"@, "UT"@, "VT"@, "VA"@, "WA"@, "WV"@,
        "WI"@, "WY"@, "DC"@, "PR"@, "GU"@, "VI"@, "AS"@, "MP"@,
    ]
}

/// Whether `v` is one of `list`.
fn member(list: &[&str], v: &Vec<char>) -> (r: bool)
    ensures
        r == list@.map_values(|s: &str| s@).contains(v@),
{
    let ghost views_of = list@.map_values(|s: &str| s@);
    for i in 0..list.len()
        invariant
            views_of == list@.map_values(|s: &str| s@),
            forall|j: int| 0 <= j < i ==> views_of[j] != v@,
    {
        let c = chars_of(list[i]);
        if chars_eq(&c, v) {
            assert(views_of[i as int] == v@);
            return true;
        }
    }
    false
}

/// Whether `code` (already upper-cased) is a USPS state or territory code.
pub(crate) fn is_state_code_chars(code: &Vec<char>) -> (r: bool)
    ensures
        r == state_codes().contains(code@),
{
    let list: [&str; 56] = [
        "AL", "AK", "AZ", "AR", "CA", "CO", "CT", "DE", "FL", "GA", "HI", "ID", "IL", "IN", "IA",
        "KS", "KY", "LA", "ME", "MD", "MA", "MI", "MN", "MS", "MO", "MT", "NE", "NV", "NH", "NJ",
        "NM", "NY", "NC", "ND", "OH", "OK", "OR", "PA", "RI", "SC", "SD", "TN", "TX", "UT", "VT",
        "VA", "WA", "WV", "WI", "WY", "DC", "PR", "GU", "VI", "AS", "MP",
    ];
    assert(list@.map_values(|s: &str| s@) =~= state_codes());
    member(&list, code)
}

/// The preferred USPS street suffix abbreviations (Publication 28, Appendix C1).
pub open spec fn suffix_codes() -> Seq<Seq<char>> {
    seq![
        "ALY"@, "ANX"@, "ARC"@, "AVE"@, "BYU"@, "BCH"@, "BND"@, "BLF"@, "BLFS"@, "BTM"@,
        "BLVD"@, "BR"@, "BRG"@, "BRK"@, "BRKS"@, "BG"@, "BGS"@, "BYP"@, "CP"@, "CYN"@,
        "CPE"@, "CSWY"@, "CTR"@, "CTRS"@, "CIR"@, "CIRS"@, "CLF"@, "CLFS"@, "CLB"@, "CMN"@,
        "CMNS"@, "COR"@, "CORS"@, "CRSE"@, "CT"@, "CTS"@, "CV"@, "CVS"@, "CRK"@, "CRES"@,
        "CRST"@, "XING"@, "XRD"@, "XRDS"@, "CURV"@, "DL"@, "DM"@, "DV"@, "DR"@, "DRS"@,
        "DRV"@, "EST"@, "ESTS"@, "EXPY"@, "EXT"@, "EXTS"@, "FALL"@, "FLS"@, "FRY"@, "FLD"@,
        "FLDS"@, "FLT"@, "FLTS"@, "FRD"@, "FRDS"@, "FRST"@, "FRG"@, "FRGS"@, "FRK"@, "FRKS"@,
        "FT"@, "FWY"@, "GDN"@, "GDNS"@, "GTWY"@, "GLN"@, "GLNS"@, "GRN"@, "GRNS"@, "GRV"@,
        "GRVS"@, "HBR"@, "HBRS"@, "HVN"@, "HTS"@, "HWY"@, "HL"@, "HLS"@, "HOLW"@, "INLT"@,
        "IS"@, "ISS"@, "ISLE"@, "JCT"@, "JCTS"@, "KY"@, "KYS"@, "KNL"@, "KNLS"@, "LK"@,
        "LKS"@, "LAND"@, "LNDG"@, "LN"@, "LGT"@, "LGTS"@, "LF"@, "LCK"@, "LCKS"@, "LDG"@,
        "LOOP"@, "MALL"@, "MNR"@, "MNRS"@, "MDW"@, "MDWS"@, "MEWS"@, "ML"@, "MLS"@, "MSN"@,
        "MTWY"@, "MT"@, "MTN"@, "MTNS"@, "NCK"@, "ORCH"@, "OVAL"@, "OPAS"@, "PARK"@, "PKWY"@,
        "PASS"@, "PSGE"@, "PATH"@, "PIKE"@, "PNE"@, "PNES"@, "PL"@, "PLN"@, "PLNS"@, "PLZ"@,
        "PT"@, "PTS"@, "PRT"@, "PRTS"@, "PR"@, "RADL"@, "RAMP"@, "RNCH"@, "RPD"@, "RPDS"@,
        "RST"@, "RDG"@, "RDGS"@, "RIV"@, "RD"@, "RDS"@, "RTE"@, "ROW"@, "RUE"@, "RUN"@,
        "SHL"@, "SHLS"@, "SHR"@, "SHRS"@, "SKWY"@, "SPG"@, "SPGS"@, "SPUR"@, "SQ"@, "SQS"@,
        "STA"@, "STRA"@, "STRM"@, "ST"@, "STS"@, "SMT"@, "TER"@, "TRWY"@, "TRCE"@, "TRAK"@,
        "TRFY"@, "TRL"@, "TRLR"@, "TUNL"@, "TPKE"@, "UPAS"@, "UN"@, "UNS"@, "VLY"@, "VLYS"@,
        "VIA"@, "VW"@, "VWS"@, "VLG"@, "VLGS"@, "VL"@, "VIS"@, "WALK"@, "WALKS"@, "WALL"@,
        "WAY"@, "WAYS"@, "WL"@, "WLS"@,
    ]
}

/// Whether `word` (already upper-cased) is a USPS street suffix abbreviation.
pub(crate) fn is_suffix_code_chars(word: &Vec<char>) -> (r: bool)
    ensures
        r == suffix_codes().contains(word@),
{
    let list: [&str; 204] = [
        "ALY", "ANX", "ARC", "AVE", "BYU", "BCH", "BND", "BLF", "BLFS", "BTM", "BLVD", "BR",
        "BRG", "BRK", "BRKS", "BG", "BGS", "BYP", "CP", "CYN", "CPE", "CSWY", "CTR", "CTRS",
        "CIR", "CIRS", "CLF", "CLFS", "CLB", "CMN", "CMNS", "COR", "CORS", "CRSE", "CT", "CTS",
        "CV", "CVS", "CRK", "CRES", "CRST", "XING", "XRD", "XRDS", "CURV", "DL", "DM", "DV",
        "DR", "DRS", "DRV", "EST", "ESTS", "EXPY", "EXT", "EXTS", "FALL", "FLS", "FRY", "FLD",
        "FLDS", "FLT", "FLTS", "FRD", "FRDS", "FRST", "FRG", "FRGS", "FRK", "FRKS", "FT", "FWY",
        "GDN", "GDNS", "GTWY", "GLN", "GLNS", "GRN", "GRNS", "GRV", "GRVS", "HBR", "HBRS", "HVN",
        "HTS", "HWY", "HL", "HLS", "HOLW", "INLT", "IS", "ISS", "ISLE", "JCT", "JCTS", "KY",
        "KYS", "KNL", "KNLS", "LK", "LKS", "LAND", "LNDG", "LN", "LGT", "LGTS", "LF", "LCK",
        "LCKS", "LDG", "LOOP", "MALL", "MNR", "MNRS", "MDW", "MDWS", "MEWS", "ML", "MLS", "MSN",
        "MTWY", "MT", "MTN", "MTNS", "NCK", "ORCH", "OVAL", "OPAS", "PARK", "PKWY", "PASS", "PSGE",
        "PATH", "PIKE", "PNE", "PNES", "PL", "PLN", "PLNS", "PLZ", "PT", "PTS", "PRT", "PRTS",
        "PR", "RADL", "RAMP", "RNCH", "RPD", "RPDS", "RST", "RDG", "RDGS", "RIV", "RD", "RDS",
        "RTE", "ROW", "RUE", "RUN", "SHL", "SHLS", "SHR", "SHRS", "SKWY", "SPG", "SPGS", "SPUR",
        "SQ", "SQS", "STA", "STRA", "STRM", "ST", "STS", "SMT", "TER", "TRWY", "TRCE", "TRAK",
        "TRFY", "TRL", "TRLR", "TUNL", "TPKE", "UPAS", "UN", "UNS", "VLY", "VLYS", "VIA", "VW",
        "VWS", "VLG", "VLGS", "VL", "VIS", "WALK", "WALKS", "WALL", "WAY", "WAYS", "WL", "WLS",
    ];
    assert(list@.map_values(|s: &str| s@) =~= suffix_codes());
    member(&list, word)
}

/// A street word is a standard suffix when, without trailing periods and
/// upper-cased, it is one of the USPS abbreviations ("St." counts as "ST").
pub open spec fn is_standard_suffix(word: Seq<char>) -> bool {
    suffix_codes().contains(upper_case(trim_end_char(word, '.')))
}

pub(crate) fn is_standard_suffix_chars(word: &Vec<char>) -> (r: bool)
    ensures
        r == is_standard_suffix(word@),
{
    let bare = trim_end_char_chars(word, '.');
    let upper = to_uppercase_chars(&bare);
    is_suffix_code_chars(&upper)
}

/// Spelled-out directionals, matched without regard to ASCII case.
pub open spec fn directional_names() -> Seq<Seq<char>> {
    seq![
        "NORTH"@, "SOUTH"@, "EAST"@, "WEST"@, "NORTHEAST"@, "NORTHWEST"@, "SOUTHEAST"@,
        "SOUTHWEST"@,
    ]
}

/// The USPS abbreviation of each entry of `directional_names`.
pub open spec fn directional_abbrevs() -> Seq<Seq<char>> {
    seq!["N"@, "S"@, "E"@, "W"@, "NE"@, "NW"@, "SE"@, "SW"@]
}

/// The abbreviation of the first directional from index `i` on that `word` spells out.
pub open spec fn directional_from(word: Seq<char>, i: int) -> Option<Seq<char>>
    decreases 8 - i,
{
    if i < 0 || i >= 8 {
        None
    } else if eq_ignore_ascii_case(word, directional_names()[i]) {
        Some(directional_abbrevs()[i])
    } else {
        directional_from(word, i + 1)
    }
}

/// The abbreviation `word` should have been written as, if it is a spelled-out
/// directional.
pub open spec fn directional_abbrev(word: Seq<char>) -> Option<Seq<char>> {
    directional_from(word, 0)
}

pub(crate) fn directional_abbrev_chars(word: &Vec<char>) -> (r: Option<Vec<char>>)
    ensures
        match r {
            Some(a) => directional_abbrev(word@) == Some(a@),
            None => directional_abbrev(word@) is None,
        },
{
    let names: [&str; 8] = [
        "NORTH", "SOUTH", "EAST", "WEST", "NORTHEAST", "NORTHWEST", "SOUTHEAST", "SOUTHWEST",
    ];
    let abbrevs: [&str; 8] = ["N", "S", "E", "W", "NE", "NW", "SE", "SW"];
    assert(names@.map_values(|s: &str| s@) =~= directional_names());
    assert(abbrevs@.map_values(|s: &str| s@) =~= directional_abbrevs());
    let mut i: usize = 0;
    while i < 8
        invariant
            i <= 8,
            names@.map_values(|s: &str| s@) == directional_names(),
            abbrevs@.map_values(|s: &str| s@) == directional_abbrevs(),
            directional_abbrev(word@) == directional_from(word@, i as int),
        decreases 8 - i,
    {
        let name = chars_of(names[i]);
        assert(name@ == directional_names()[i as int]);
        if chars_eq_ignore_ascii_case(word, &name) {
            let a = chars_of(abbrevs[i]);
            assert(a@ == directional_abbrevs()[i as int]);
            return Some(a);
        }
        i += 1;
    }
    None
}

/// Country designators that may trail an address, matched without regard to
/// ASCII case.
pub open spec fn country_names() -> Seq<Seq<char>> {
    seq!["USA"@, "U.S.A."@, "US"@, "UNITED STATES"@, "UNITED STATES OF AMERICA"@]
}

pub open spec fn is_country_name(s: Seq<char>) -> bool {
    exists|i: int| 0 <= i < 5 && eq_ignore_ascii_case(s, #[trigger] country_names()[i])
}

pub(crate) fn is_country_name_chars(s: &Vec<char>) -> (r: bool)
    ensures
        r == is_country_name(s@),
{
    let names: [&str; 5] = ["USA", "U.S.A.", "US", "UNITED STATES", "UNITED STATES OF AMERICA"];
    assert(names@.map_values(|s: &str| s@) =~= country_names());
    for i in 0..5
        invariant
            names@.map_values(|s: &str| s@) == country_names(),
            forall|j: int| 0 <= j < i ==> !eq_ignore_ascii_case(s@, #[trigger] country_names()[j]),
    {
        let name = chars_of(names[i]);
        assert(name@ == country_names()[i as int]);
        if chars_eq_ignore_ascii_case(s, &name) {
            return true;
        }
    }
    false
}

/// `norm` begins with the words of `pat`.
pub open spec fn starts_with_words(norm: Seq<Seq<char>>, pat: Seq<Seq<char>>) -> bool {
    &&& pat.len() <= norm.len()
    &&& forall|i: int| 0 <= i < pat.len() ==> norm[i] == pat[i]
}

/// How many leading words of a street line make up a PO box prefix, given the
/// line's words with periods removed and upper-cased: "POBOX", "PO BOX",
/// "P O BOX" or "POST OFFICE BOX".
pub open spec fn po_box_prefix(norm: Seq<Seq<char>>) -> Option<int> {
    if norm.len() > 0 && norm[0] == "POBOX"@ {
        Some(1)
    } else if starts_with_words(norm, seq!["PO"@, "BOX"@]) {
        Some(2)
    } else if starts_with_words(norm, seq!["P"@, "O"@, "BOX"@]) {
        Some(3)
    } else if starts_with_words(norm, seq!["POST"@, "OFFICE"@, "BOX"@]) {
        Some(3)
    } else {
        None
    }
}

fn starts_with_lits(norm: &Vec<Vec<char>>, pat: &[&str]) -> (r: bool)
    ensures
        r == starts_with_words(views(norm@), pat@.map_values(|s: &str| s@)),
{
    if pat.len() > norm.len() {
        return false;
    }
    let ghost pv = pat@.map_values(|s: &str| s@);
    for i in 0..pat.len()
        invariant
            pat.len() <= norm.len(),
            pv == pat@.map_values(|s: &str| s@),
            forall|j: int| 0 <= j < i ==> views(norm@)[j] == pv[j],
    {
        let w = chars_of(pat[i]);
        if !chars_eq(&norm[i], &w) {
            assert(views(norm@)[i as int] != pv[i as int]);
            return false;
        }
    }
    true
}

pub(crate) fn po_box_prefix_chars(norm: &Vec<Vec<char>>) -> (r: Option<usize>)
    ensures
        match r {
            Some(k) => po_box_prefix(views(norm@)) == Some(k as int),
            None => po_box_prefix(views(norm@)) is None,
        },
{
    let pobox: [&str; 1] = ["POBOX"];
    let po: [&str; 2] = ["PO", "BOX"];
    let p_o: [&str; 3] = ["P", "O", "BOX"];
    let post: [&str; 3] = ["POST", "OFFICE", "BOX"];
    assert(pobox@.map_values(|s: &str| s@) =~= seq!["POBOX"@]);
    assert(po@.map_values(|s: &str| s@) =~= seq!["PO"@, "BOX"@]);
    assert(p_o@.map_values(|s: &str| s@) =~= seq!["P"@, "O"@, "BOX"@]);
    assert(post@.map_values(|s: &str| s@) =~= seq!["POST"@, "OFFICE"@, "BOX"@]);
    if norm.len() > 0 && starts_with_lits(norm, &pobox) {
        Some(1)
    } else if starts_with_lits(norm, &po) {
        Some(2)
    } else if starts_with_lits(norm, &p_o) {
        Some(3)
    } else if starts_with_lits(norm, &post) {
        Some(3)
    } else {
        None
    }
}

/// A country designator starts and ends with a letter or period and holds no
/// comma.
pub proof fn lemma_country_name_shape(s: Seq<char>)
    requires
        is_country_name(s),
    ensures
        s.len() > 0,
        !is_ws(s[0]),
        !is_ws(s.last()),
        !is_ascii_digit(s.last()),
        !s.contains(','),
{
    reveal_strlit("USA");
    reveal_strlit("U.S.A.");
    reveal_strlit("US");
    reveal_strlit("UNITED STATES");
    reveal_strlit("UNITED STATES OF AMERICA");
    let i = choose|i: int| 0 <= i < 5 && eq_ignore_ascii_case(s, #[trigger] country_names()[i]);
    let name = country_names()[i];
    assert(forall|j: int| 0 <= j < name.len() ==> name[j] != ',' && (name[j] == ' ' || name[j] == '.' || ('A' <= name[j] && name[j] <= 'Z')));
    assert(fold_ascii(s[0]) == fold_ascii(name[0]));
    assert(fold_ascii(s[s.len() - 1]) == fold_ascii(name[name.len() - 1]));
    assert(name[0] == 'U');
    assert(name[name.len() - 1] == 'A' || name[name.len() - 1] == 'S' || name[name.len() - 1] == '.');
    assert(!s.contains(',')) by {
        if s.contains(',') {
            let k = choose|k: int| 0 <= k < s.len() && s[k] == ',';
            assert(fold_ascii(s[k]) == fold_ascii(name[k]));
        }
    }
}

/// Whether `code` is exactly one of the USPS state and territory codes (the
/// parser upper-cases the state before asking).
pub fn is_state_code(code: &str) -> (r: bool)
    ensures
        r == state_codes().contains(code@),
{
    let c = chars_of(code);
    is_state_code_chars(&c)
}

/// Whether `word` is exactly one of the USPS street suffix abbreviations (the
/// parser drops trailing periods and upper-cases a word before asking).
pub fn is_suffix_code(word: &str) -> (r: bool)
    ensures
        r == suffix_codes().contains(word@),
{
    let c = chars_of(word);
    is_suffix_code_chars(&c)
}

/// How many leading words of a street line form a PO box prefix, given its
/// words with periods removed and upper-cased.
pub fn po_box_prefix_len(normalized: &Vec<String>) -> (r: Option<usize>)
    ensures
        match r {
            Some(k) => po_box_prefix(normalized@.map_values(|s: String| s@)) == Some(k as int),
            None => po_box_prefix(normalized@.map_values(|s: String| s@)) is None,
        },
{
    let mut norm: Vec<Vec<char>> = Vec::new();
    for i in 0..normalized.len()
        invariant
            views(norm@) == normalized@.map_values(|s: String| s@).take(i as int),
    {
        let c = chars_of(normalized[i].as_str());
        let ghost before = norm@;
        norm.push(c);
        assert(views(norm@) == views(before).push(c@));
        assert(normalized@.map_values(|s: String| s@).take(i + 1) =~= normalized@.map_values(
            |s: String| s@,
        ).take(i as int).push(normalized@[i as int]@));
    }
    assert(normalized@.map_values(|s: String| s@).take(normalized.len() as int)
        == normalized@.map_values(|s: String| s@));
    po_box_prefix_chars(&norm)
}

/// Every state code is two upper-case ASCII letters.
#[verifier::rlimit(40)]
pub proof fn lemma_state_code_shape(s: Seq<char>)
    requires
        state_codes().contains(s),
    ensures
        s.len() == 2,
        forall|i: int| 0 <= i < 2 ==> 'A' <= #[trigger] s[i] && s[i] <= 'Z',
{
    reveal_strlit("AL");
    reveal_strlit("AK");
    reveal_strlit("AZ");
    reveal_strlit("AR");
    reveal_strlit("CA");
    reveal_strlit("CO");
    reveal_strlit("CT");
    reveal_strlit("DE");
    reveal_strlit("FL");
    reveal_strlit("GA");
    reveal_strlit("HI");
    reveal_strlit("ID");
    reveal_strlit("IL");
    reveal_strlit("IN");
    reveal_strlit("IA");
    reveal_strlit("KS");
    reveal_strlit("KY");
    reveal_strlit("LA");
    reveal_strlit("ME");
    reveal_strlit("MD");
    reveal_strlit("MA");
    reveal_strlit("MI");
    reveal_strlit("MN");
    reveal_strlit("MS");
    reveal_strlit("MO");
    reveal_strlit("MT");
    reveal_strlit("NE");
    reveal_strlit("NV");
    reveal_strlit("NH");
    reveal_strlit("NJ");
    reveal_strlit("NM");
    reveal_strlit("NY");
    reveal_strlit("NC");
    reveal_strlit("ND");
    reveal_strlit("OH");
    reveal_strlit("OK");
    reveal_strlit("OR");
    reveal_strlit("PA");
    reveal_strlit("RI");
    reveal_strlit("SC");
    reveal_strlit("SD");
    reveal_strlit("TN");
    reveal_strlit("TX");
    reveal_strlit("UT");
    reveal_strlit("VT");
    reveal_strlit("VA");
    reveal_strlit("WA");
    reveal_strlit("WV");
    reveal_strlit("WI");
    reveal_strlit("WY");
    reveal_strlit("DC");
    reveal_strlit("PR");
    reveal_strlit("GU");
    reveal_strlit("VI");
    reveal_strlit("AS");
    reveal_strlit("MP");
    let k = choose|k: int| 0 <= k < state_codes().len() && state_codes()[k] == s;
    assert(forall|j: int| 0 <= j < 56 ==> (#[trigger] state_codes()[j]).len() == 2
        && 'A' <= state_codes()[j][0] && state_codes()[j][0] <= 'Z'
        && 'A' <= state_codes()[j][1] && state_codes()[j][1] <= 'Z');
    assert(s[0] == state_codes()[k][0]);
}

} // verus!
