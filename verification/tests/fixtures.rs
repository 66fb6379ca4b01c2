use addrparts::address;

// Messy address strings shaped like what shows up in CSV exports and scraped
// pages, paired with whether they should parse as valid.
const FIXTURES: &str = "\
# whitespace and casing
valid|  123 Main St ,  Springfield ,  il   62704  
valid|123 MAIN ST, SPRINGFIELD, IL 62704-1234
valid|\t500 Elm St, Apt 4B, Austin, tx 73301\t
# PO boxes
valid|P.O. Box 99, Austin, TX 73301
valid|PO Box 456, Austin, TX 73301
valid|p o box 7, Austin, TX 73301
valid|Post Office Box 789, Austin, TX 73301
invalid|PO Box, Austin, TX 73301
# country designators
valid|1600 Amphitheatre Pkwy, Mountain View, CA 94043, USA
valid|1600 Amphitheatre Pkwy, Mountain View, CA 94043, united states
# no commas
valid|123 Main St Springfield IL 62704
invalid|123 Main Street Springfield IL 62704
# broken fields
invalid|123 Main St, Springfield, IL 6270
invalid|123 Main St, Springfield, IL 62704-12
invalid|123 Main St, Springfield, XX 62704
invalid|123 Main St, , IL 62704
invalid|just a string
";

#[test]
fn messy_addresses_match_expected_validity() {
    let mut checked = 0;
    for (i, raw_line) in FIXTURES.lines().enumerate() {
        let line_no = i + 1;
        let line = raw_line.trim();
        if line.is_empty() || line.starts_with('#') {
            continue;
        }

        let (expected, addr) = line.split_once('|').unwrap_or_else(|| {
            panic!("fixture line {line_no}: missing '|' separator")
        });
        let want_valid = match expected {
            "valid" => true,
            "invalid" => false,
            other => panic!("fixture line {line_no}: expected 'valid' or 'invalid', got '{other}'"),
        };

        let outcome = address::parse(addr, false);
        assert_eq!(
            outcome.is_valid(),
            want_valid,
            "fixture line {line_no}: {addr:?} expected valid={want_valid}, got errors={:?}",
            outcome.errors
        );
        checked += 1;
    }

    assert!(checked > 0, "no fixtures were exercised");
}
