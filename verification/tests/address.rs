use addrparts::address::{parse, parse_lines};

#[test]
fn parses_plain_address() {
    let out = parse("123 Main St, Springfield, IL 62704", false);
    assert!(out.is_valid());
    let addr = out.address.unwrap();
    assert_eq!(addr.street, "123 Main St");
    assert_eq!(addr.city, "Springfield");
    assert_eq!(addr.state, "IL");
    assert_eq!(addr.zip5, "62704");
    assert_eq!(addr.zip4, None);
}

#[test]
fn parses_zip_plus_four() {
    let out = parse("1600 Amphitheatre Pkwy, Mountain View, CA 94043-1351", false);
    assert!(out.is_valid());
    let addr = out.address.unwrap();
    assert_eq!(addr.zip4.as_deref(), Some("1351"));
}

#[test]
fn folds_extra_segments_into_street() {
    let out = parse("500 Elm St, Apt 4B, Austin, TX 73301", false);
    assert!(out.is_valid());
    let addr = out.address.unwrap();
    assert_eq!(addr.street, "500 Elm St, Apt 4B");
}

#[test]
fn rejects_bad_state() {
    let out = parse("1 First Ave, Nowhere, ZZ 00000", false);
    assert!(!out.is_valid());
}

#[test]
fn rejects_short_input() {
    let out = parse("just a string", false);
    assert!(!out.is_valid());
    assert!(out.address.is_none());
}

#[test]
fn strict_accepts_standard_suffix() {
    let out = parse("1600 Amphitheatre Pkwy, Mountain View, CA 94043", true);
    assert!(out.is_valid());
}

#[test]
fn strict_accepts_suffix_with_trailing_period() {
    let out = parse("123 Main St., Springfield, IL 62704", true);
    assert!(out.is_valid());
}

#[test]
fn strict_rejects_spelled_out_suffix() {
    let out = parse("123 Main Street, Springfield, IL 62704", true);
    assert!(!out.is_valid());
}

#[test]
fn non_strict_ignores_spelled_out_suffix() {
    let out = parse("123 Main Street, Springfield, IL 62704", false);
    assert!(out.is_valid());
}

#[test]
fn strict_checks_primary_street_not_folded_segment() {
    let out = parse("500 Elm St, Apt 4B, Austin, TX 73301", true);
    assert!(out.is_valid());
}

#[test]
fn parse_lines_skips_blank_lines() {
    let input = "123 Main St, Springfield, IL 62704\n\n   \n1 First Ave, Nowhere, ZZ 00000\n";
    let outcomes = parse_lines(input, false);
    assert_eq!(outcomes.len(), 2);
    assert!(outcomes[0].is_valid());
    assert!(!outcomes[1].is_valid());
}

#[test]
fn parse_lines_trims_each_line() {
    let outcomes = parse_lines("  123 Main St, Springfield, IL 62704  \n", false);
    assert_eq!(outcomes.len(), 1);
    assert_eq!(outcomes[0].input, "123 Main St, Springfield, IL 62704");
}

#[test]
fn parse_lines_empty_input_yields_no_outcomes() {
    assert!(parse_lines("\n\n", false).is_empty());
}

#[test]
fn to_single_line_reassembles_without_zip4() {
    let out = parse("123 Main St, Springfield, IL 62704", false);
    let addr = out.address.unwrap();
    assert_eq!(addr.to_single_line(), "123 Main St, Springfield, IL 62704");
}

#[test]
fn to_single_line_reassembles_with_zip4() {
    let out = parse("1600 Amphitheatre Pkwy, Mountain View, CA 94043-1351", false);
    let addr = out.address.unwrap();
    assert_eq!(
        addr.to_single_line(),
        "1600 Amphitheatre Pkwy, Mountain View, CA 94043-1351"
    );
}

#[test]
fn whitespace_fallback_parses_address_without_commas() {
    let out = parse("123 Main St Springfield IL 62704", false);
    assert!(out.is_valid());
    let addr = out.address.unwrap();
    assert_eq!(addr.street, "123 Main St");
    assert_eq!(addr.city, "Springfield");
    assert_eq!(addr.state, "IL");
    assert_eq!(addr.zip5, "62704");
}

#[test]
fn whitespace_fallback_handles_zip_plus_four() {
    let out = parse("1600 Amphitheatre Pkwy Mountain View CA 94043-1351", false);
    assert!(out.is_valid());
    let addr = out.address.unwrap();
    assert_eq!(addr.street, "1600 Amphitheatre Pkwy");
    assert_eq!(addr.city, "Mountain View");
    assert_eq!(addr.zip4.as_deref(), Some("1351"));
}

#[test]
fn whitespace_fallback_picks_rightmost_suffix_match() {
    // "Park" is itself a standard suffix abbreviation, so the fallback
    // must not stop there when a later, better boundary exists.
    let out = parse("1 Main Park Ave Parkville OH 43000", false);
    assert!(out.is_valid());
    let addr = out.address.unwrap();
    assert_eq!(addr.street, "1 Main Park Ave");
    assert_eq!(addr.city, "Parkville");
}

#[test]
fn whitespace_fallback_fails_without_recognizable_suffix() {
    let out = parse("PO Box 123 Springfield IL 62704", false);
    assert!(!out.is_valid());
    assert!(out.address.is_none());
}

#[test]
fn whitespace_fallback_respects_strict_mode() {
    let out = parse("123 Main St Springfield IL 62704", true);
    assert!(out.is_valid());
}

#[test]
fn detects_plain_po_box() {
    let out = parse("PO Box 456, Austin, TX 73301", false);
    assert!(out.is_valid());
    let addr = out.address.unwrap();
    assert_eq!(addr.po_box.as_deref(), Some("456"));
    assert_eq!(addr.street, "PO Box 456");
}

#[test]
fn detects_po_box_with_periods() {
    let out = parse("P.O. Box 123, Austin, TX 73301", false);
    assert!(out.is_valid());
    let addr = out.address.unwrap();
    assert_eq!(addr.po_box.as_deref(), Some("123"));
}

#[test]
fn detects_po_box_spelled_out() {
    let out = parse("Post Office Box 789, Austin, TX 73301", false);
    assert!(out.is_valid());
    let addr = out.address.unwrap();
    assert_eq!(addr.po_box.as_deref(), Some("789"));
}

#[test]
fn detects_po_box_spaced_out() {
    let out = parse("P O Box 42, Austin, TX 73301", false);
    assert!(out.is_valid());
    let addr = out.address.unwrap();
    assert_eq!(addr.po_box.as_deref(), Some("42"));
}

#[test]
fn regular_street_has_no_po_box() {
    let out = parse("123 Main St, Springfield, IL 62704", false);
    let addr = out.address.unwrap();
    assert_eq!(addr.po_box, None);
}

#[test]
fn po_box_missing_number_is_invalid() {
    let out = parse("PO Box, Austin, TX 73301", false);
    assert!(!out.is_valid());
    let addr = out.address.unwrap();
    assert_eq!(addr.po_box, None);
}

#[test]
fn strict_mode_skips_suffix_check_for_po_box() {
    let out = parse("PO Box 123, Austin, TX 73301", true);
    assert!(out.is_valid());
}

#[test]
fn to_single_line_uppercases_state_and_keeps_folded_segments() {
    let out = parse("500 Elm St, Apt 4B, Austin, tx 73301", false);
    let addr = out.address.unwrap();
    assert_eq!(
        addr.to_single_line(),
        "500 Elm St, Apt 4B, Austin, TX 73301"
    );
}
