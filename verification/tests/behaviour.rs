use addrparts::address::{parse, parse_lines};
use addrparts::codes::{is_state_code, is_suffix_code, po_box_prefix_len};
use addrparts::report::{json_string, to_human, to_json, to_json_array};

#[test]
fn readme_json_valid_example() {
    let out = parse("1600 Amphitheatre Pkwy, Mountain View, CA 94043-1351", false);
    assert_eq!(
        to_json(&out),
        "{\"input\":\"1600 Amphitheatre Pkwy, Mountain View, CA 94043-1351\",\"valid\":true,\"address\":{\"street\":\"1600 Amphitheatre Pkwy\",\"city\":\"Mountain View\",\"state\":\"CA\",\"zip5\":\"94043\",\"zip4\":\"1351\",\"po_box\":null},\"errors\":[]}"
    );
}

#[test]
fn readme_json_invalid_example() {
    let out = parse("1 First Ave, Nowhere, ZZ 00000", false);
    assert_eq!(
        to_json(&out),
        "{\"input\":\"1 First Ave, Nowhere, ZZ 00000\",\"valid\":false,\"address\":{\"street\":\"1 First Ave\",\"city\":\"Nowhere\",\"state\":\"ZZ\",\"zip5\":\"00000\",\"zip4\":null,\"po_box\":null},\"errors\":[\"'ZZ' is not a recognized state or territory code\"]}"
    );
}

#[test]
fn readme_json_po_box_example() {
    let out = parse("PO Box 456, Austin, TX 73301", false);
    assert_eq!(
        to_json(&out),
        "{\"input\":\"PO Box 456, Austin, TX 73301\",\"valid\":true,\"address\":{\"street\":\"PO Box 456\",\"city\":\"Austin\",\"state\":\"TX\",\"zip5\":\"73301\",\"zip4\":null,\"po_box\":\"456\"},\"errors\":[]}"
    );
}

#[test]
fn json_for_unparseable_line_has_null_address() {
    let out = parse("just a string", false);
    assert_eq!(
        to_json(&out),
        "{\"input\":\"just a string\",\"valid\":false,\"address\":null,\"errors\":[\"expected at least three non-empty comma-separated segments (street, city, state zip), or a whitespace-only address ending in STATE ZIP with a recognizable street suffix\"]}"
    );
}

#[test]
fn json_array_of_two_outcomes() {
    let outcomes = parse_lines("123 Main St, Springfield, IL 62704\njust a string\n", false);
    let text = to_json_array(&outcomes);
    assert!(text.starts_with("[{\"input\":\"123 Main St, Springfield, IL 62704\""));
    assert!(text.ends_with("]}]"));
    assert_eq!(text.matches("\"input\":").count(), 2);
    assert_eq!(to_json_array(&Vec::new()), "[]");
}

#[test]
fn json_string_escapes() {
    assert_eq!(json_string("Spring \"field\""), "\"Spring \\\"field\\\"\"");
    assert_eq!(json_string("a\\b\nc\rd\te"), "\"a\\\\b\\nc\\rd\\te\"");
    assert_eq!(json_string("\u{1}\u{1f}"), "\"\\u0001\\u001f\"");
    assert_eq!(json_string("é"), "\"é\"");
    assert_eq!(json_string(""), "\"\"");
}

#[test]
fn readme_human_example() {
    let out = parse("1600 Amphitheatre Pkwy, Mountain View, CA 94043", false);
    assert_eq!(
        to_human(&out),
        "street: 1600 Amphitheatre Pkwy\ncity:   Mountain View\nstate:  CA\nzip:    94043\nvalid:  true\n"
    );
}

#[test]
fn human_report_lists_errors_and_po_box() {
    let out = parse("PO Box 9, Austin, ZZ 7330", false);
    assert_eq!(
        to_human(&out),
        "street: PO Box 9\ncity:   Austin\nstate:  ZZ\nzip:    \npo box: 9\nerror:  'ZZ' is not a recognized state or territory code\nerror:  '7330' is not a valid 5-digit ZIP code\nvalid:  false\n"
    );
    let out = parse("just a string", false);
    let text = to_human(&out);
    assert!(text.starts_with("(no fields could be parsed)\nerror:  expected"));
    assert!(text.ends_with("recognizable street suffix\nvalid:  false\n"));
}

#[test]
fn human_report_with_zip4() {
    let out = parse("1 Main St, Springfield, IL 62704-1234", false);
    assert!(to_human(&out).contains("zip:    62704-1234\n"));
}

#[test]
fn state_is_upper_cased_other_fields_kept() {
    let out = parse("123 main st, springfield, il 62704", false);
    let addr = out.address.unwrap();
    assert_eq!(addr.state, "IL");
    assert_eq!(addr.street, "123 main st");
    assert_eq!(addr.to_single_line(), "123 main st, springfield, IL 62704");
}

#[test]
fn error_tail_without_state_and_zip() {
    let out = parse("123 Main St, Springfield, IL62704", false);
    assert!(out.address.is_none());
    assert_eq!(out.errors, vec!["could not split 'IL62704' into a state and a ZIP code".to_string()]);
}

#[test]
fn error_bad_zip5() {
    let out = parse("123 Main St, Springfield, IL 6270a", false);
    assert_eq!(out.errors, vec!["'6270a' is not a valid 5-digit ZIP code".to_string()]);
    let addr = out.address.unwrap();
    assert_eq!(addr.zip5, "");
    assert_eq!(addr.zip4, None);
}

#[test]
fn error_bad_zip4() {
    let out = parse("123 Main St, Springfield, IL 62704-12345", false);
    assert_eq!(out.errors, vec!["'12345' is not a valid 4-digit ZIP+4 suffix".to_string()]);
    let out = parse("123 Main St, Springfield, IL 62704-", false);
    assert_eq!(out.errors, vec!["'' is not a valid 4-digit ZIP+4 suffix".to_string()]);
}

#[test]
fn error_bad_state_multiword() {
    let out = parse("123 Main St, Springfield, new york 10001", false);
    assert_eq!(out.address.unwrap().state, "NEW YORK");
    assert_eq!(out.errors, vec!["'NEW YORK' is not a recognized state or territory code".to_string()]);
}

#[test]
fn error_po_box_without_number() {
    let out = parse("P.O. Box, Austin, TX 73301", false);
    assert_eq!(out.errors, vec!["PO box line has no box number".to_string()]);
}

#[test]
fn error_strict_suffix_message() {
    let out = parse("123 Main Street, Springfield, IL 62704", true);
    assert_eq!(
        out.errors,
        vec!["'Street' is not a standard USPS street suffix abbreviation".to_string()]
    );
}

#[test]
fn strict_rejects_spelled_out_directional() {
    let out = parse("123 North Main St, Springfield, IL 62704", true);
    assert_eq!(
        out.errors,
        vec!["'North' should be abbreviated as 'N' in --strict mode".to_string()]
    );
    let out = parse("123 Main St southwest, Springfield, IL 62704", true);
    assert_eq!(
        out.errors,
        vec![
            "'southwest' is not a standard USPS street suffix abbreviation".to_string(),
            "'southwest' should be abbreviated as 'SW' in --strict mode".to_string(),
        ]
    );
    assert!(parse("123 N Main St, Springfield, IL 62704", true).is_valid());
    assert!(parse("123 North Main St, Springfield, IL 62704", false).is_valid());
}

#[test]
fn strict_only_adds_errors_instance() {
    let line = "123 Northeast Main Street, Springfield, ZZ 62704";
    let strict = parse(line, true);
    let lax = parse(line, false);
    assert_eq!(lax.errors.len(), 1);
    assert_eq!(strict.errors.len(), 3);
    for e in &lax.errors {
        assert!(strict.errors.contains(e));
    }
    assert_eq!(
        strict.address.unwrap().to_single_line(),
        lax.address.unwrap().to_single_line()
    );
}

#[test]
fn country_suffix_is_stripped() {
    for suffix in ["USA", "U.S.A.", "us", "United States", "united states of america"] {
        let line = format!("1600 Amphitheatre Pkwy, Mountain View, CA 94043, {suffix}");
        let out = parse(&line, false);
        assert!(out.is_valid(), "{line}: {:?}", out.errors);
        assert_eq!(out.input, line);
        let addr = out.address.unwrap();
        assert_eq!(addr.city, "Mountain View");
        assert_eq!(addr.zip5, "94043");
    }
}

#[test]
fn country_suffix_stripped_before_whitespace_split() {
    let out = parse("123 Main St Springfield IL 62704, USA", false);
    assert!(out.is_valid());
    assert_eq!(out.address.unwrap().city, "Springfield");
}

#[test]
fn country_law_instance() {
    let x = "500 Elm St, Apt 4B, Austin, TX 73301";
    let a = parse(x, true);
    let b = parse(&format!("{x}, USA"), true);
    assert_eq!(a.errors, b.errors);
    assert_eq!(a.address.unwrap().to_single_line(), b.address.unwrap().to_single_line());
}

#[test]
fn non_country_last_segment_is_kept() {
    let out = parse("1 Main St, Springfield, IL 62704, Earth", false);
    assert!(out.address.is_none());
    assert_eq!(
        out.errors,
        vec!["could not split 'Earth' into a state and a ZIP code".to_string()]
    );
}

#[test]
fn single_line_round_trip_instances() {
    for line in [
        "123 Main St, Springfield, IL 62704",
        "500 Elm St, Apt 4B, Austin, TX 73301",
        "PO Box 456, Austin, TX 73301",
        "1600 Amphitheatre Pkwy, Mountain View, CA 94043-1351",
    ] {
        let first = parse(line, false).address.unwrap();
        let again = parse(&first.to_single_line(), false).address.unwrap();
        assert_eq!(again.street, first.street);
        assert_eq!(again.city, first.city);
        assert_eq!(again.state, first.state);
        assert_eq!(again.zip5, first.zip5);
        assert_eq!(again.zip4, first.zip4);
        assert_eq!(again.po_box, first.po_box);
    }
}

#[test]
fn messy_whitespace_is_normalised_by_format() {
    let out = parse("  123  Main St ,Springfield,   il   62704 ", false);
    assert!(out.is_valid());
    assert_eq!(out.input, "123  Main St ,Springfield,   il   62704");
    assert_eq!(out.address.unwrap().to_single_line(), "123  Main St, Springfield, IL 62704");
}

#[test]
fn unicode_whitespace_trimmed() {
    let out = parse("\u{3000}123 Main St,\u{a0}Springfield, IL 62704\u{2003}", false);
    assert!(out.is_valid());
    assert_eq!(out.address.unwrap().city, "Springfield");
}

#[test]
fn whitespace_fallback_needs_five_words() {
    assert!(parse("Main St Springfield IL", false).address.is_none());
    let out = parse("Main St Springfield IL 62704", false);
    assert!(out.is_valid());
    assert_eq!(out.address.unwrap().street, "Main St");
}

#[test]
fn whitespace_fallback_suffix_with_period() {
    let out = parse("9 Oak Ave. Portland OR 97201", false);
    assert!(out.is_valid());
    assert_eq!(out.address.unwrap().street, "9 Oak Ave.");
}

#[test]
fn empty_segment_falls_back_to_whitespace_split() {
    let out = parse("123 Main St, , Springfield IL 62704", false);
    assert!(out.address.is_none());
}

#[test]
fn parse_lines_handles_crlf() {
    let outcomes = parse_lines("123 Main St, Springfield, IL 62704\r\n\r\nPO Box 1, Austin, TX 73301\r\n", false);
    assert_eq!(outcomes.len(), 2);
    assert_eq!(outcomes[1].input, "PO Box 1, Austin, TX 73301");
    assert!(outcomes.iter().all(|o| o.is_valid()));
    assert!(parse_lines("", true).is_empty());
}

#[test]
fn public_code_lookups() {
    assert!(is_state_code("IL"));
    assert!(is_state_code("MP"));
    assert!(!is_state_code("il"));
    assert!(!is_state_code("ZZ"));
    assert!(is_suffix_code("ST"));
    assert!(is_suffix_code("WLS"));
    assert!(!is_suffix_code("STREET"));
    assert!(!is_suffix_code("st"));
}

#[test]
fn public_po_box_prefix() {
    let words = |s: &str| s.split(' ').map(|w| w.to_string()).collect::<Vec<String>>();
    assert_eq!(po_box_prefix_len(&words("POBOX 12")), Some(1));
    assert_eq!(po_box_prefix_len(&words("PO BOX 12")), Some(2));
    assert_eq!(po_box_prefix_len(&words("P O BOX")), Some(3));
    assert_eq!(po_box_prefix_len(&words("POST OFFICE BOX 3")), Some(3));
    assert_eq!(po_box_prefix_len(&words("PO DRAWER 3")), None);
    assert_eq!(po_box_prefix_len(&Vec::new()), None);
}

#[test]
fn po_box_number_keeps_all_following_words() {
    let out = parse("PO Box 12 A, Austin, TX 73301", false);
    assert_eq!(out.address.unwrap().po_box.as_deref(), Some("12 A"));
    let out = parse("pobox 7, Austin, TX 73301", false);
    assert_eq!(out.address.unwrap().po_box.as_deref(), Some("7"));
}

#[test]
fn whitespace_split_matches_comma_form_instance() {
    let a = parse("1 Main Park Ave Parkville OH 43000", true);
    let b = parse("1 Main Park Ave, Parkville, OH 43000", true);
    assert_eq!(a.errors, b.errors);
    assert_eq!(
        a.address.unwrap().to_single_line(),
        b.address.unwrap().to_single_line()
    );
}

#[test]
fn readme_strict_human_example_error_before_verdict() {
    let out = parse("123 Main Street, Springfield, IL 62704", true);
    assert!(to_human(&out).ends_with(
        "error:  'Street' is not a standard USPS street suffix abbreviation\nvalid:  false\n"
    ));
    let out = parse("123 North Main St, Springfield, IL 62704", true);
    assert!(to_human(&out).ends_with(
        "error:  'North' should be abbreviated as 'N' in --strict mode\nvalid:  false\n"
    ));
}

fn decode_json_string(lit: &str) -> String {
    let body: Vec<char> = lit.chars().collect();
    assert_eq!(body.first(), Some(&'"'));
    assert_eq!(body.last(), Some(&'"'));
    let body = &body[1..body.len() - 1];
    let mut out = String::new();
    let mut i = 0;
    while i < body.len() {
        let c = body[i];
        assert!(c != '"' && (c as u32) >= 0x20, "raw {c:?} in {lit:?}");
        if c == '\\' {
            match body[i + 1] {
                '"' => out.push('"'),
                '\\' => out.push('\\'),
                'n' => out.push('\n'),
                'r' => out.push('\r'),
                't' => out.push('\t'),
                'u' => {
                    let hex: String = body[i + 2..i + 6].iter().collect();
                    out.push(char::from_u32(u32::from_str_radix(&hex, 16).unwrap()).unwrap());
                    i += 4;
                }
                other => panic!("unexpected escape {other:?}"),
            }
            i += 2;
        } else {
            out.push(c);
            i += 1;
        }
    }
    out
}

#[test]
fn json_string_decodes_back() {
    for s in ["", "plain", "q\"uote\\", "ctl\u{0}\u{1b}\u{1f}\u{7f}", "tab\tnl\ncr\r", "ünï\u{3000}😀"] {
        assert_eq!(decode_json_string(&json_string(s)), s);
    }
}

#[test]
fn suffix_matching_ignores_case_and_trailing_period() {
    for line in [
        "123 Main st, Springfield, IL 62704",
        "123 Main sT., Springfield, IL 62704",
        "123 Main ST, Springfield, il 62704",
    ] {
        assert!(parse(line, true).is_valid(), "{line}");
    }
    assert!(parse("1 Main st Springfield IL 62704", false).is_valid());
}

#[test]
fn valid_comma_parse_round_trips_valid() {
    let first = parse("  500 Elm St ,Apt 4B,  Austin , tx   73301-0001, usa ", true);
    assert!(first.is_valid());
    let a = first.address.unwrap();
    let again = parse(&a.to_single_line(), true);
    assert!(again.is_valid());
    assert_eq!(again.address.unwrap().to_single_line(), a.to_single_line());
}

#[test]
fn state_never_holds_ascii_lower_case() {
    for (line, state) in [
        ("1 Main St, Springfield, ßx 62704", "SSX"),
        ("1 Main St, Springfield, ıl 62704", "IL"),
        ("1 Main St, Springfield, ñy 62704", "ÑY"),
    ] {
        let addr = parse(line, false).address.unwrap();
        assert_eq!(addr.state, state);
        assert!(!addr.state.chars().any(|c| c.is_ascii_lowercase()));
    }
}
