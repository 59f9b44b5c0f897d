use oid_walk::error::{Error, NetGraphError};
use oid_walk::parser::parse_snmpwalk_line;
use oid_walk::types::SNMPDataType;
use rasn::types::ObjectIdentifier;

fn oid(arcs: Vec<u32>) -> ObjectIdentifier {
    ObjectIdentifier::new(arcs).unwrap()
}

#[test]
fn parses_line_with_string_type() {
    let parsed = parse_snmpwalk_line(".1.3.6.1.2.1.1.1 = STRING: Linux host").unwrap();
    assert_eq!(parsed.0, oid(vec![1, 3, 6, 1, 2, 1, 1, 1]));
    assert_eq!(parsed.1, SNMPDataType::String);
    assert_eq!(parsed.2, "Linux host");
}

#[test]
fn unknown_type_keyword_falls_back_to_opaque() {
    let parsed = parse_snmpwalk_line(".1.3.6 = VENDORTYPE: xyz").unwrap();
    assert_eq!(parsed.0, oid(vec![1, 3, 6]));
    assert_eq!(parsed.1, SNMPDataType::Opaque);
    assert_eq!(parsed.2, "xyz");
}

#[test]
fn line_without_type_tag_defaults_to_string() {
    let parsed = parse_snmpwalk_line(".1.3.6 = somevalue").unwrap();
    assert_eq!(parsed.0, oid(vec![1, 3, 6]));
    assert_eq!(parsed.1, SNMPDataType::String);
    assert_eq!(parsed.2, "somevalue");
}

#[test]
fn line_without_separator_is_invalid() {
    let parsed = parse_snmpwalk_line("not a valid line");
    assert_eq!(parsed, Err(Error::InvalidLine("not a valid line".into())));
}

#[test]
fn only_the_first_colon_splits_type_from_value() {
    let parsed = parse_snmpwalk_line(".1.3.6 = STRING: http://example.com").unwrap();
    assert_eq!(parsed.1, SNMPDataType::String);
    assert_eq!(parsed.2, "http://example.com");
}

#[test]
fn only_the_first_equals_splits_oid_from_rest() {
    let parsed = parse_snmpwalk_line(".1.3.6 = STRING: a = b").unwrap();
    assert_eq!(parsed.1, SNMPDataType::String);
    assert_eq!(parsed.2, "a = b");
}

#[test]
fn bad_oid_in_line_propagates_the_codec_error() {
    let parsed = parse_snmpwalk_line("1.3.x.1 = STRING: v");
    assert_eq!(parsed, Err(Error::ParseOidError("1.3.x.1".into())));
}

#[test]
fn every_known_type_keyword_maps_to_its_variant() {
    let cases = [
        ("INTEGER", SNMPDataType::Integer),
        ("STRING", SNMPDataType::String),
        ("NULL", SNMPDataType::Null),
        ("OID", SNMPDataType::Oid),
        ("IpAddress", SNMPDataType::IpAddress),
        ("Counter32", SNMPDataType::Counter32),
        ("Gauge32", SNMPDataType::Gauge32),
        ("Timeticks", SNMPDataType::Timeticks),
        ("Counter64", SNMPDataType::Counter64),
        ("Opaque", SNMPDataType::Opaque),
    ];
    for (keyword, expected) in cases {
        let line = format!(".1.3.6 = {}: v", keyword);
        let parsed = parse_snmpwalk_line(&line).unwrap();
        assert_eq!(parsed.1, expected);
        assert_eq!(parsed.2, "v");
    }
}

#[test]
fn keyword_match_is_case_sensitive() {
    let parsed = parse_snmpwalk_line(".1.3.6 = string: v").unwrap();
    assert_eq!(parsed.1, SNMPDataType::Opaque);
}

#[test]
fn surrounding_whitespace_is_trimmed() {
    let parsed = parse_snmpwalk_line("  .1.3.6   =   STRING: spaced value  ").unwrap();
    assert_eq!(parsed.0, oid(vec![1, 3, 6]));
    assert_eq!(parsed.1, SNMPDataType::String);
    assert_eq!(parsed.2, "spaced value");
}

#[test]
fn a_space_before_the_colon_defeats_the_keyword() {
    // the keyword is matched verbatim against the text before `:`
    let parsed = parse_snmpwalk_line(".1.3.6 = STRING : v").unwrap();
    assert_eq!(parsed.1, SNMPDataType::Opaque);
}

#[test]
fn narrow_errors_embed_into_the_shared_taxonomy() {
    let io = NetGraphError::IoError("lost".into());
    assert_eq!(Error::from(io.clone()), Error::IoError(io));
    assert_eq!(
        Error::from(NetGraphError::UnknownError),
        Error::IoError(NetGraphError::UnknownError)
    );
}
