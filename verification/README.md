# addrparts

Splits a single-line US mailing address (`STREET, CITY, STATE ZIP[-ZIP4]`)
into its fields and reports what is structurally wrong with it: the comma
layout, the state code against the USPS list, the ZIP digit count, PO box
lines, and in strict mode USPS street suffixes and directionals. Lines
without commas are split by whitespace at the rightmost street suffix, and a
trailing country designator (`USA`, `United States`, ...) is ignored.

The library is written in Verus and proved against its specifications:

- `src/text.rs` — trimming, splitting, word-splitting and joining over
  characters, with their meaning as spec functions and supporting lemmas.
- `src/codes.rs` — the state, street-suffix, directional and country
  vocabularies, and the upper-casing step (`str::to_uppercase`, trusted).
- `src/address.rs` — `parse`, `parse_lines`, `ParsedAddress`,
  `ParseOutcome`; `spec_parse` states exactly what parsing returns.
- `src/report.rs` — the JSON and human-readable renderings.
- `src/laws.rs` — properties across inputs: strict mode only adds errors,
  a trailing country designator is ignored, a comma-less line parses as its
  comma form, `to_single_line` output parses back to the same fields for
  addresses whose fields are clean (`reassemblable`), in particular for every
  valid address that was split at its commas (which re-parses valid), a PO box
  line without a number is invalid, and on ASCII words the suffix test ignores
  letter case and a trailing period.
- `src/report.rs` also proves that `json_string` writes a well-formed JSON
  string literal that decodes back to its input.

`app/main.rs` is the command-line front end (arguments, stdin, printing,
exit codes).
