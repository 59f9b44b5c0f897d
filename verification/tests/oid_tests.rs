use oid_walk::error::Error;
use oid_walk::types::ObjectIdentifierExt;
use rasn::types::ObjectIdentifier;

#[test]
fn can_parse_valid_oid_from_string() {
    let oids = [
        "1.3.6.1.2.1.1.1",
        "1.3.6.1.2.1.1.2",
        "1.3.6.1.2.1.1.9.1.4",
        ".1.3.6.1.4.1.29671.1.1.3",
    ];

    for oid in oids {
        let expected_oid = oid
            .split('.')
            .filter(|element| !element.is_empty())
            .map(|element| element.parse::<u32>().unwrap())
            .collect::<Vec<u32>>();
        let expected_oid = ObjectIdentifier::new(expected_oid).unwrap();

        let parsed_oid = ObjectIdentifier::from_str(oid).unwrap();
        assert_eq!(parsed_oid, expected_oid)
    }
}

#[test]
fn return_parse_error_for_invalid_oid_string() {
    let invalid_oids = [
        "1.3.uu.1.2.1.1.1",
        "1.3.6.1.2.1.1.2.",
        "1.3.6..1.2.1.1.9.1.4",
        ".1.3.6..1.4.1.29671.1.1.3.",
    ];

    for oid in invalid_oids {
        let parsed_oid = ObjectIdentifier::from_str(oid);
        assert!(parsed_oid.is_err());
        assert_eq!(parsed_oid, Err(Error::ParseOidError(oid.into())));
    }
}

#[test]
fn leading_dot_and_bare_form_agree() {
    let with_dot = ObjectIdentifier::from_str(".1.3.6.1").unwrap();
    let without_dot = ObjectIdentifier::from_str("1.3.6.1").unwrap();
    let expected = ObjectIdentifier::new(vec![1u32, 3, 6, 1]).unwrap();
    assert_eq!(with_dot, expected);
    assert_eq!(without_dot, expected);
}

#[test]
fn rejects_internal_empty_segment() {
    let parsed = ObjectIdentifier::from_str("1.3..6.1");
    assert_eq!(parsed, Err(Error::ParseOidError("1.3..6.1".into())));
}

#[test]
fn rejects_non_numeric_segment() {
    let parsed = ObjectIdentifier::from_str("1.3.u.1");
    assert_eq!(parsed, Err(Error::ParseOidError("1.3.u.1".into())));
}

#[test]
fn encode_produces_canonical_leading_dot_form() {
    let oid = ObjectIdentifier::new(vec![1u32, 3, 6, 1]).unwrap();
    assert_eq!(ObjectIdentifierExt::to_string(&oid), ".1.3.6.1");
}

#[test]
fn encode_then_decode_is_identity() {
    let oid = ObjectIdentifier::new(vec![1u32, 3, 6, 1, 4, 1, 29671, 0, 4294967295]).unwrap();
    let text = ObjectIdentifierExt::to_string(&oid);
    assert_eq!(text, ".1.3.6.1.4.1.29671.0.4294967295");
    let back = ObjectIdentifier::from_str(&text).unwrap();
    assert_eq!(back, oid);
}

#[test]
fn single_arc_decodes() {
    let parsed = ObjectIdentifier::from_str("2").unwrap();
    assert_eq!(parsed, ObjectIdentifier::new(vec![2u32]).unwrap());
}

#[test]
fn largest_arc_is_accepted_and_one_more_is_not() {
    let parsed = ObjectIdentifier::from_str("1.3.4294967295").unwrap();
    assert_eq!(parsed, ObjectIdentifier::new(vec![1u32, 3, 4294967295]).unwrap());

    let too_big = ObjectIdentifier::from_str("1.3.4294967296");
    assert_eq!(too_big, Err(Error::ParseOidError("1.3.4294967296".into())));
}

#[test]
fn segment_with_plus_sign_parses_as_its_digits() {
    let parsed = ObjectIdentifier::from_str("1.+3.6").unwrap();
    assert_eq!(parsed, ObjectIdentifier::new(vec![1u32, 3, 6]).unwrap());

    let bare_plus = ObjectIdentifier::from_str("1.+.6");
    assert_eq!(bare_plus, Err(Error::ParseOidError("1.+.6".into())));
}

#[test]
fn empty_and_dot_only_inputs_are_rejected() {
    assert_eq!(
        ObjectIdentifier::from_str(""),
        Err(Error::ParseOidError("".into()))
    );
    assert_eq!(
        ObjectIdentifier::from_str("."),
        Err(Error::ParseOidError(".".into()))
    );
}

#[test]
fn arcs_outside_the_identifier_space_are_rejected() {
    // the first arc may be at most 2
    assert_eq!(
        ObjectIdentifier::from_str("3.1"),
        Err(Error::ParseOidError("3.1".into()))
    );
    // below first arc 2, the second arc may be at most 39
    assert_eq!(
        ObjectIdentifier::from_str("1.40"),
        Err(Error::ParseOidError("1.40".into()))
    );
    // with first arc 2 the second arc is unbounded
    let ok = ObjectIdentifier::from_str("2.40000000").unwrap();
    assert_eq!(ok, ObjectIdentifier::new(vec![2u32, 40000000]).unwrap());
}
